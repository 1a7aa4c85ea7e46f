//! Properties of the decoder that hold for every input.
use vstd::prelude::*;

use crate::error::ParseError;
use crate::grammar::{
    OPEN_BRACE, OPEN_BRACKET, SpecResult,
    array_items, array_rest, array_sep, document, object_member, object_rest,
    object_sep, over_limit, skip_ws, value, value_head, Head, Sep,
};
use crate::progress::{lemma_array_sep, lemma_object_sep, lemma_skip_ws, lemma_value_head};
use crate::value::{depth, items_depth, members_depth, JsonModel};

verus! {

proof fn lemma_items_depth_push(items: Seq<JsonModel>, v: JsonModel)
    ensures
        items_depth(items.push(v)) == if items_depth(items) >= depth(v) {
            items_depth(items)
        } else {
            depth(v)
        },
{
    let all = items.push(v);
    assert(all.subrange(0, all.len() - 1) =~= items);
}

proof fn lemma_members_depth_push(entries: Seq<(Seq<char>, JsonModel)>, key: Seq<char>, v: JsonModel)
    ensures
        members_depth(entries.push((key, v))) == if members_depth(entries) >= depth(v) {
            members_depth(entries)
        } else {
            depth(v)
        },
{
    let all = entries.push((key, v));
    assert(all.subrange(0, all.len() - 1) =~= entries);
}

/// What the depth limit `n` does to a value at `depth` `d`: a value that
/// parses with the limit parses the same without it and fits; one that
/// parses without the limit parses the same with it if it fits, and is
/// refused with `DepthLimitExceeded` if it does not.
pub open spec fn limit_agrees<E>(
    with_limit: Result<(JsonModel, int), (ParseError<E>, int)>,
    without: Result<(JsonModel, int), (ParseError<E>, int)>,
    d: int,
    n: int,
) -> bool {
    &&& with_limit matches Ok((v, q)) ==> without == with_limit && d + depth(v) <= n
    &&& without matches Ok((v, q)) ==> (d + depth(v) <= n ==> with_limit == without) && (d
        + depth(v) > n ==> with_limit matches Err((ParseError::DepthLimitExceeded, _)))
}

proof fn lemma_limit_value<E>(s: Seq<u8>, p: int, d: nat, n: usize)
    requires
        0 <= p <= s.len(),
        d <= n,
    ensures
        limit_agrees(value::<E>(s, p, d, Some(n)), value::<E>(s, p, d, None), d as int, n as int),
    decreases s.len() - p, 0int,
{
    lemma_value_head::<E>(s, p, d, Some(n));
    lemma_value_head::<E>(s, p, d, None);
    if p < s.len() && (s[p] == crate::grammar::OPEN_BRACKET || s[p]
        == crate::grammar::OPEN_BRACE) {
        match value_head::<E>(s, p, d, None) {
            Head::OpenArray(q) => {
                lemma_items_depth::<E>(s, q, d + 1, None, seq![]);
                if !over_limit(d, Some(n)) {
                    lemma_limit_items::<E>(s, q, d + 1, n, seq![]);
                }
            },
            Head::OpenObject(k, q) => {
                lemma_member_depth::<E>(s, q, d + 1, None, seq![], k);
                if !over_limit(d, Some(n)) {
                    lemma_limit_member::<E>(s, q, d + 1, n, seq![], k);
                }
            },
            _ => {},
        }
    } else {
        assert(value_head::<E>(s, p, d, Some(n)) == value_head::<E>(s, p, d, None));
    }
}

proof fn lemma_limit_items<E>(s: Seq<u8>, p: int, d: nat, n: usize, items: Seq<JsonModel>)
    requires
        0 <= p <= s.len(),
        d + items_depth(items) <= n,
    ensures
        limit_agrees(
            array_items::<E>(s, p, d, Some(n), items),
            array_items::<E>(s, p, d, None, items),
            d - 1,
            n as int,
        ),
    decreases s.len() - p, 1int,
{
    lemma_limit_value::<E>(s, p, d, n);
    crate::progress::lemma_value::<E>(s, p, d, None);
    crate::progress::lemma_value::<E>(s, p, d, Some(n));
    match value::<E>(s, p, d, None) {
        Ok((v, q)) => {
            if d + depth(v) <= n {
                lemma_items_depth_push(items, v);
                lemma_limit_rest::<E>(s, q, d, n, items.push(v));
                lemma_rest_depth::<E>(s, q, d, None, items.push(v));
            } else {
                lemma_items_depth_push(items, v);
                lemma_rest_depth::<E>(s, q, d, None, items.push(v));
            }
        },
        Err(_) => {},
    }
}

proof fn lemma_limit_rest<E>(s: Seq<u8>, p: int, d: nat, n: usize, items: Seq<JsonModel>)
    requires
        0 <= p <= s.len(),
        d + items_depth(items) <= n,
    ensures
        limit_agrees(
            array_rest::<E>(s, p, d, Some(n), items),
            array_rest::<E>(s, p, d, None, items),
            d - 1,
            n as int,
        ),
    decreases s.len() - p, 0int,
{
    lemma_array_sep::<E>(s, p);
    match array_sep::<E>(s, p) {
        Sep::Next(q) => {
            lemma_limit_items::<E>(s, q, d, n, items);
        },
        _ => {},
    }
}

proof fn lemma_limit_member<E>(
    s: Seq<u8>,
    p: int,
    d: nat,
    n: usize,
    entries: Seq<(Seq<char>, JsonModel)>,
    key: Seq<char>,
)
    requires
        0 <= p <= s.len(),
        d + members_depth(entries) <= n,
    ensures
        limit_agrees(
            object_member::<E>(s, p, d, Some(n), entries, key),
            object_member::<E>(s, p, d, None, entries, key),
            d - 1,
            n as int,
        ),
    decreases s.len() - p, 1int,
{
    lemma_limit_value::<E>(s, p, d, n);
    crate::progress::lemma_value::<E>(s, p, d, None);
    crate::progress::lemma_value::<E>(s, p, d, Some(n));
    match value::<E>(s, p, d, None) {
        Ok((v, q)) => {
            lemma_members_depth_push(entries, key, v);
            lemma_object_rest_depth::<E>(s, q, d, None, entries.push((key, v)));
            if d + depth(v) <= n {
                lemma_limit_object_rest::<E>(s, q, d, n, entries.push((key, v)));
            }
        },
        Err(_) => {},
    }
}

proof fn lemma_limit_object_rest<E>(
    s: Seq<u8>,
    p: int,
    d: nat,
    n: usize,
    entries: Seq<(Seq<char>, JsonModel)>,
)
    requires
        0 <= p <= s.len(),
        d + members_depth(entries) <= n,
    ensures
        limit_agrees(
            object_rest::<E>(s, p, d, Some(n), entries),
            object_rest::<E>(s, p, d, None, entries),
            d - 1,
            n as int,
        ),
    decreases s.len() - p, 0int,
{
    lemma_object_sep::<E>(s, p);
    match object_sep::<E>(s, p) {
        Sep::NextKey(k, q) => {
            lemma_limit_member::<E>(s, q, d, n, entries, k);
        },
        _ => {},
    }
}

/// The rest of an array holds at least the items read so far.
proof fn lemma_rest_depth<E>(s: Seq<u8>, p: int, d: nat, limit: Option<usize>, items: Seq<JsonModel>)
    requires
        0 <= p <= s.len(),
    ensures
        array_rest::<E>(s, p, d, limit, items) matches Ok((v, _)) ==> depth(v) >= 1
            + items_depth(items),
    decreases s.len() - p, 0int,
{
    lemma_array_sep::<E>(s, p);
    match array_sep::<E>(s, p) {
        Sep::Next(q) => {
            lemma_items_depth::<E>(s, q, d, limit, items);
        },
        _ => {},
    }
}

proof fn lemma_items_depth<E>(s: Seq<u8>, p: int, d: nat, limit: Option<usize>, items: Seq<JsonModel>)
    requires
        0 <= p <= s.len(),
    ensures
        array_items::<E>(s, p, d, limit, items) matches Ok((v, _)) ==> depth(v) >= 1
            + items_depth(items),
    decreases s.len() - p, 1int,
{
    crate::progress::lemma_value::<E>(s, p, d, limit);
    match value::<E>(s, p, d, limit) {
        Ok((v, q)) => {
            lemma_items_depth_push(items, v);
            lemma_rest_depth::<E>(s, q, d, limit, items.push(v));
        },
        Err(_) => {},
    }
}

/// The rest of an object holds at least the members read so far.
proof fn lemma_object_rest_depth<E>(
    s: Seq<u8>,
    p: int,
    d: nat,
    limit: Option<usize>,
    entries: Seq<(Seq<char>, JsonModel)>,
)
    requires
        0 <= p <= s.len(),
    ensures
        object_rest::<E>(s, p, d, limit, entries) matches Ok((v, _)) ==> depth(v) >= 1
            + members_depth(entries),
    decreases s.len() - p, 0int,
{
    lemma_object_sep::<E>(s, p);
    match object_sep::<E>(s, p) {
        Sep::NextKey(k, q) => {
            lemma_member_depth::<E>(s, q, d, limit, entries, k);
        },
        _ => {},
    }
}

proof fn lemma_member_depth<E>(
    s: Seq<u8>,
    p: int,
    d: nat,
    limit: Option<usize>,
    entries: Seq<(Seq<char>, JsonModel)>,
    key: Seq<char>,
)
    requires
        0 <= p <= s.len(),
    ensures
        object_member::<E>(s, p, d, limit, entries, key) matches Ok((v, _)) ==> depth(v) >= 1
            + members_depth(entries),
    decreases s.len() - p, 1int,
{
    crate::progress::lemma_value::<E>(s, p, d, limit);
    match value::<E>(s, p, d, limit) {
        Ok((v, q)) => {
            lemma_members_depth_push(entries, key, v);
            lemma_object_rest_depth::<E>(s, q, d, limit, entries.push((key, v)));
        },
        Err(_) => {},
    }
}

/// The depth limit refuses exactly the documents that nest deeper than it:
/// a document accepted with a limit of `n` is accepted without a limit, with
/// the same value, and that value is at most `n` deep; a document accepted
/// without a limit is accepted with the same value under a limit of `n` if it
/// is at most `n` deep, and is refused with `DepthLimitExceeded` otherwise.
pub proof fn law_depth_limit<E>(s: Seq<u8>, n: usize)
    ensures
        document::<E>(s, Some(n)) matches Ok(v) ==> document::<E>(s, None) == Ok::<
            JsonModel,
            (ParseError<E>, int),
        >(v) && depth(v) <= n,
        document::<E>(s, None) matches Ok(v) ==> (depth(v) <= n ==> document::<E>(s, Some(n))
            == Ok::<JsonModel, (ParseError<E>, int)>(v)) && (depth(v) > n ==> document::<E>(
            s,
            Some(n),
        ) matches Err((ParseError::DepthLimitExceeded, _))),
{
    lemma_skip_ws(s, 0);
    let p = skip_ws(s, 0);
    lemma_limit_value::<E>(s, p, 0, n);
}

/// The location that comes with an error lies inside the input, or just
/// after its end.
pub proof fn law_error_location<E>(s: Seq<u8>, limit: Option<usize>)
    ensures
        document::<E>(s, limit) matches Err((_, loc)) ==> 0 <= loc <= s.len(),
{
    lemma_skip_ws(s, 0);
    let p = skip_ws(s, 0);
    crate::progress::lemma_value::<E>(s, p, 0, limit);
    if let Ok((_, q)) = value::<E>(s, p, 0, limit) {
        lemma_skip_ws(s, q);
    }
}

/// Whether an array or object opens at `q`.
pub open spec fn opens_container(s: Seq<u8>, q: int) -> bool {
    0 <= q < s.len() && (s[q] == OPEN_BRACKET || s[q] == OPEN_BRACE)
}

/// The result with a depth limit is the result without one, or else it is
/// `DepthLimitExceeded` at an opening bracket or brace, at or after `p`,
/// no later than where the parse without a limit fails or ends.
pub open spec fn limit_first<E>(
    s: Seq<u8>,
    with_limit: SpecResult<JsonModel, E>,
    without: SpecResult<JsonModel, E>,
    p: int,
) -> bool {
    ||| with_limit == without
    ||| {
        &&& with_limit matches Err((ParseError::DepthLimitExceeded, q))
        &&& p <= q
        &&& opens_container(s, q)
        &&& (without matches Err((_, l)) ==> q <= l)
        &&& (without matches Ok((_, r)) ==> q < r)
    }
}

proof fn lemma_first_value<E>(s: Seq<u8>, p: int, d: nat, n: usize)
    requires
        0 <= p <= s.len(),
    ensures
        limit_first(s, value::<E>(s, p, d, Some(n)), value::<E>(s, p, d, None), p),
    decreases s.len() - p, 0int,
{
    lemma_value_head::<E>(s, p, d, Some(n));
    lemma_value_head::<E>(s, p, d, None);
    crate::progress::lemma_value::<E>(s, p, d, None);
    if p < s.len() && (s[p] == OPEN_BRACKET || s[p] == OPEN_BRACE) {
        if !over_limit(d, Some(n)) {
            match value_head::<E>(s, p, d, None) {
                Head::OpenArray(q) => {
                    lemma_first_items::<E>(s, q, d + 1, n, seq![]);
                },
                Head::OpenObject(k, q) => {
                    lemma_first_member::<E>(s, q, d + 1, n, seq![], k);
                },
                _ => {},
            }
        }
    } else {
        assert(value_head::<E>(s, p, d, Some(n)) == value_head::<E>(s, p, d, None));
    }
}

proof fn lemma_first_items<E>(s: Seq<u8>, p: int, d: nat, n: usize, items: Seq<JsonModel>)
    requires
        0 <= p <= s.len(),
    ensures
        limit_first(
            s,
            array_items::<E>(s, p, d, Some(n), items),
            array_items::<E>(s, p, d, None, items),
            p,
        ),
    decreases s.len() - p, 1int,
{
    lemma_first_value::<E>(s, p, d, n);
    crate::progress::lemma_value::<E>(s, p, d, None);
    crate::progress::lemma_value::<E>(s, p, d, Some(n));
    if let Ok((v, q)) = value::<E>(s, p, d, None) {
        crate::progress::lemma_array_rest::<E>(s, q, d, None, items.push(v));
        if value::<E>(s, p, d, Some(n)) == value::<E>(s, p, d, None) {
            lemma_first_rest::<E>(s, q, d, n, items.push(v));
        }
    }
}

proof fn lemma_first_rest<E>(s: Seq<u8>, p: int, d: nat, n: usize, items: Seq<JsonModel>)
    requires
        0 <= p <= s.len(),
    ensures
        limit_first(
            s,
            array_rest::<E>(s, p, d, Some(n), items),
            array_rest::<E>(s, p, d, None, items),
            p,
        ),
    decreases s.len() - p, 0int,
{
    lemma_array_sep::<E>(s, p);
    if let Sep::Next(q) = array_sep::<E>(s, p) {
        lemma_first_items::<E>(s, q, d, n, items);
    }
}

proof fn lemma_first_member<E>(
    s: Seq<u8>,
    p: int,
    d: nat,
    n: usize,
    entries: Seq<(Seq<char>, JsonModel)>,
    key: Seq<char>,
)
    requires
        0 <= p <= s.len(),
    ensures
        limit_first(
            s,
            object_member::<E>(s, p, d, Some(n), entries, key),
            object_member::<E>(s, p, d, None, entries, key),
            p,
        ),
    decreases s.len() - p, 1int,
{
    lemma_first_value::<E>(s, p, d, n);
    crate::progress::lemma_value::<E>(s, p, d, None);
    crate::progress::lemma_value::<E>(s, p, d, Some(n));
    if let Ok((v, q)) = value::<E>(s, p, d, None) {
        crate::progress::lemma_object_rest::<E>(s, q, d, None, entries.push((key, v)));
        if value::<E>(s, p, d, Some(n)) == value::<E>(s, p, d, None) {
            lemma_first_object_rest::<E>(s, q, d, n, entries.push((key, v)));
        }
    }
}

proof fn lemma_first_object_rest<E>(
    s: Seq<u8>,
    p: int,
    d: nat,
    n: usize,
    entries: Seq<(Seq<char>, JsonModel)>,
)
    requires
        0 <= p <= s.len(),
    ensures
        limit_first(
            s,
            object_rest::<E>(s, p, d, Some(n), entries),
            object_rest::<E>(s, p, d, None, entries),
            p,
        ),
    decreases s.len() - p, 0int,
{
    lemma_object_sep::<E>(s, p);
    if let Sep::NextKey(k, q) = object_sep::<E>(s, p) {
        lemma_first_member::<E>(s, q, d, n, entries, k);
    }
}

/// On every input, valid or not, a depth limit changes the result only by
/// refusing the document with `DepthLimitExceeded` at the location of an
/// opening bracket or brace, and no later than the error that the document
/// gets without a limit: the container past the limit is refused before any
/// later error is found.
pub proof fn law_depth_error_first<E>(s: Seq<u8>, n: usize)
    ensures
        document::<E>(s, Some(n)) == document::<E>(s, None) || {
            &&& document::<E>(s, Some(n)) matches Err((ParseError::DepthLimitExceeded, q))
            &&& opens_container(s, q)
            &&& (document::<E>(s, None) matches Err((_, l)) ==> q <= l)
        },
{
    lemma_skip_ws(s, 0);
    let p = skip_ws(s, 0);
    lemma_first_value::<E>(s, p, 0, n);
    crate::progress::lemma_value::<E>(s, p, 0, None);
    if let Ok((_, r)) = value::<E>(s, p, 0, None) {
        lemma_skip_ws(s, r);
    }
}


/// An opened array or object that fails does so after its opening bracket.
proof fn lemma_container_fails_later<E>(s: Seq<u8>, p: int, d: nat, limit: Option<usize>)
    requires
        opens_container(s, p),
        !over_limit(d, limit),
    ensures
        value::<E>(s, p, d, limit) matches Err((_, q)) ==> p < q,
{
    lemma_skip_ws(s, p + 1);
    let q = skip_ws(s, p + 1);
    if q < s.len() {
        crate::progress::lemma_object_key::<E>(s, q + 1);
    }
    match value_head::<E>(s, p, d, limit) {
        Head::OpenArray(r) => {
            crate::progress::lemma_array_items::<E>(s, r, d + 1, limit, seq![]);
        },
        Head::OpenObject(k, r) => {
            crate::progress::lemma_object_member::<E>(s, r, d + 1, limit, seq![], k);
        },
        _ => {},
    }
}

proof fn lemma_mono_value<E>(s: Seq<u8>, p: int, d: nat, m: usize, n: usize)
    requires
        0 <= p <= s.len(),
        m <= n,
    ensures
        value::<E>(s, p, d, Some(m)) == value::<E>(s, p, d, None) ==> value::<E>(
            s,
            p,
            d,
            Some(n),
        ) == value::<E>(s, p, d, None),
    decreases s.len() - p, 0int,
{
    lemma_value_head::<E>(s, p, d, None);
    if opens_container(s, p) {
        if over_limit(d, Some(m)) {
            lemma_container_fails_later::<E>(s, p, d, None);
        } else {
            match value_head::<E>(s, p, d, None) {
                Head::OpenArray(q) => {
                    lemma_mono_items::<E>(s, q, d + 1, m, n, seq![]);
                },
                Head::OpenObject(k, q) => {
                    lemma_mono_member::<E>(s, q, d + 1, m, n, seq![], k);
                },
                _ => {},
            }
        }
    } else {
        assert(value_head::<E>(s, p, d, Some(n)) == value_head::<E>(s, p, d, None));
    }
}

proof fn lemma_mono_items<E>(s: Seq<u8>, p: int, d: nat, m: usize, n: usize, items: Seq<JsonModel>)
    requires
        0 <= p <= s.len(),
        m <= n,
    ensures
        array_items::<E>(s, p, d, Some(m), items) == array_items::<E>(s, p, d, None, items)
            ==> array_items::<E>(s, p, d, Some(n), items) == array_items::<E>(
            s,
            p,
            d,
            None,
            items,
        ),
    decreases s.len() - p, 1int,
{
    lemma_mono_value::<E>(s, p, d, m, n);
    lemma_first_value::<E>(s, p, d, m);
    crate::progress::lemma_value::<E>(s, p, d, None);
    if let Ok((v, q)) = value::<E>(s, p, d, None) {
        crate::progress::lemma_array_rest::<E>(s, q, d, None, items.push(v));
        if value::<E>(s, p, d, Some(m)) == value::<E>(s, p, d, None) {
            lemma_mono_rest::<E>(s, q, d, m, n, items.push(v));
        }
    }
}

proof fn lemma_mono_rest<E>(s: Seq<u8>, p: int, d: nat, m: usize, n: usize, items: Seq<JsonModel>)
    requires
        0 <= p <= s.len(),
        m <= n,
    ensures
        array_rest::<E>(s, p, d, Some(m), items) == array_rest::<E>(s, p, d, None, items)
            ==> array_rest::<E>(s, p, d, Some(n), items) == array_rest::<E>(
            s,
            p,
            d,
            None,
            items,
        ),
    decreases s.len() - p, 0int,
{
    lemma_array_sep::<E>(s, p);
    if let Sep::Next(q) = array_sep::<E>(s, p) {
        lemma_mono_items::<E>(s, q, d, m, n, items);
    }
}

proof fn lemma_mono_member<E>(
    s: Seq<u8>,
    p: int,
    d: nat,
    m: usize,
    n: usize,
    entries: Seq<(Seq<char>, JsonModel)>,
    key: Seq<char>,
)
    requires
        0 <= p <= s.len(),
        m <= n,
    ensures
        object_member::<E>(s, p, d, Some(m), entries, key) == object_member::<E>(
            s,
            p,
            d,
            None,
            entries,
            key,
        ) ==> object_member::<E>(s, p, d, Some(n), entries, key) == object_member::<E>(
            s,
            p,
            d,
            None,
            entries,
            key,
        ),
    decreases s.len() - p, 1int,
{
    lemma_mono_value::<E>(s, p, d, m, n);
    lemma_first_value::<E>(s, p, d, m);
    crate::progress::lemma_value::<E>(s, p, d, None);
    if let Ok((v, q)) = value::<E>(s, p, d, None) {
        crate::progress::lemma_object_rest::<E>(s, q, d, None, entries.push((key, v)));
        if value::<E>(s, p, d, Some(m)) == value::<E>(s, p, d, None) {
            lemma_mono_object_rest::<E>(s, q, d, m, n, entries.push((key, v)));
        }
    }
}

proof fn lemma_mono_object_rest<E>(
    s: Seq<u8>,
    p: int,
    d: nat,
    m: usize,
    n: usize,
    entries: Seq<(Seq<char>, JsonModel)>,
)
    requires
        0 <= p <= s.len(),
        m <= n,
    ensures
        object_rest::<E>(s, p, d, Some(m), entries) == object_rest::<E>(s, p, d, None, entries)
            ==> object_rest::<E>(s, p, d, Some(n), entries) == object_rest::<E>(
            s,
            p,
            d,
            None,
            entries,
        ),
    decreases s.len() - p, 0int,
{
    lemma_object_sep::<E>(s, p);
    if let Sep::NextKey(k, q) = object_sep::<E>(s, p) {
        lemma_mono_member::<E>(s, q, d, m, n, entries, k);
    }
}

/// A document that a depth limit of `m` does not refuse for its depth nests
/// no deeper than `m`: under that limit and under every larger one it gets
/// exactly the result it gets without a limit, valid or not.
pub proof fn law_depth_within_limit<E>(s: Seq<u8>, m: usize, n: usize)
    requires
        m <= n,
        !(document::<E>(s, Some(m)) matches Err((ParseError::DepthLimitExceeded, _))),
    ensures
        document::<E>(s, Some(m)) == document::<E>(s, None),
        document::<E>(s, Some(n)) == document::<E>(s, None),
{
    lemma_skip_ws(s, 0);
    let p = skip_ws(s, 0);
    lemma_first_value::<E>(s, p, 0, m);
    lemma_mono_value::<E>(s, p, 0, m, n);
}

} // verus!
