//! The syntax of JSON numbers as a finite automaton over bytes, and how the
//! number reader relates to it: it takes the longest run of bytes that can
//! still begin a number, and succeeds exactly when that run is a number.
use vstd::prelude::*;

use crate::error::ParseError;
use crate::grammar::{
    document, exponent_part, is_digit, number, skip_digits, skip_ws, DIGIT_NINE, DIGIT_ONE, DIGIT_ZERO, DOT, LOWER_E,
    MINUS, PLUS, UPPER_E,
};
use crate::progress::lemma_skip_digits;
use crate::value::JsonModel;

verus! {

/// Where an automaton for `-?(0|[1-9][0-9]*)(\.[0-9]+)?([eE][+-]?[0-9]+)?`
/// stands after some bytes.
pub enum NumberState {
    Start,
    Sign,
    Zero,
    Integer,
    Point,
    Fraction,
    Exponent,
    ExponentSign,
    ExponentDigits,
    /// No continuation makes a number of the bytes read.
    Dead,
}

/// `e` or `E`, which starts the exponent part of a number.
pub open spec fn is_exponent_mark(b: u8) -> bool {
    b == LOWER_E || b == UPPER_E
}

/// A decimal digit, `0` to `9`.
pub open spec fn is_decimal(b: u8) -> bool {
    0x30 <= b <= 0x39
}

/// One step of the automaton.
pub open spec fn number_step(state: NumberState, b: u8) -> NumberState {
    match state {
        NumberState::Start => if b == MINUS {
            NumberState::Sign
        } else if b == DIGIT_ZERO {
            NumberState::Zero
        } else if DIGIT_ONE <= b <= DIGIT_NINE {
            NumberState::Integer
        } else {
            NumberState::Dead
        },
        NumberState::Sign => if b == DIGIT_ZERO {
            NumberState::Zero
        } else if DIGIT_ONE <= b <= DIGIT_NINE {
            NumberState::Integer
        } else {
            NumberState::Dead
        },
        NumberState::Zero => if b == DOT {
            NumberState::Point
        } else if is_exponent_mark(b) {
            NumberState::Exponent
        } else {
            NumberState::Dead
        },
        NumberState::Integer => if is_decimal(b) {
            NumberState::Integer
        } else if b == DOT {
            NumberState::Point
        } else if is_exponent_mark(b) {
            NumberState::Exponent
        } else {
            NumberState::Dead
        },
        NumberState::Point => if is_decimal(b) {
            NumberState::Fraction
        } else {
            NumberState::Dead
        },
        NumberState::Fraction => if is_decimal(b) {
            NumberState::Fraction
        } else if is_exponent_mark(b) {
            NumberState::Exponent
        } else {
            NumberState::Dead
        },
        NumberState::Exponent => if b == PLUS || b == MINUS {
            NumberState::ExponentSign
        } else if is_decimal(b) {
            NumberState::ExponentDigits
        } else {
            NumberState::Dead
        },
        NumberState::ExponentSign => if is_decimal(b) {
            NumberState::ExponentDigits
        } else {
            NumberState::Dead
        },
        NumberState::ExponentDigits => if is_decimal(b) {
            NumberState::ExponentDigits
        } else {
            NumberState::Dead
        },
        NumberState::Dead => NumberState::Dead,
    }
}

/// The state of the automaton after reading `t`.
pub open spec fn number_state(t: Seq<u8>) -> NumberState
    decreases t.len(),
{
    if t.len() == 0 {
        NumberState::Start
    } else {
        number_step(number_state(t.drop_last()), t.last())
    }
}

/// Whether `t` is the beginning of some JSON number.
pub open spec fn is_number_prefix(t: Seq<u8>) -> bool {
    number_state(t) != NumberState::Dead
}

/// Whether `t` is a whole JSON number.
pub open spec fn is_json_number(t: Seq<u8>) -> bool {
    let st = number_state(t);
    st == NumberState::Zero || st == NumberState::Integer || st == NumberState::Fraction || st
        == NumberState::ExponentDigits
}

/// Whether `t` holds a `.`, an `e` or an `E`.
pub open spec fn has_fraction_or_exponent(t: Seq<u8>) -> bool {
    exists|i: int| 0 <= i < t.len() && (t[i] == DOT || is_exponent_mark(#[trigger] t[i]))
}

/// The state after the `i` bytes from `p` on.
spec fn state_at(s: Seq<u8>, p: int, i: int) -> NumberState {
    number_state(s.subrange(p, p + i))
}

proof fn lemma_state_step(s: Seq<u8>, p: int, i: int)
    requires
        0 <= p,
        0 <= i,
        p + i < s.len(),
    ensures
        state_at(s, p, i + 1) == number_step(state_at(s, p, i), s[p + i]),
{
    let t = s.subrange(p, p + i + 1);
    assert(t.drop_last() =~= s.subrange(p, p + i));
}

proof fn lemma_dead_stays(s: Seq<u8>, p: int, i: int, j: int)
    requires
        0 <= p,
        0 <= i <= j,
        p + j <= s.len(),
        state_at(s, p, i) == NumberState::Dead,
    ensures
        state_at(s, p, j) == NumberState::Dead,
    decreases j - i,
{
    if i < j {
        lemma_state_step(s, p, i);
        lemma_dead_stays(s, p, i + 1, j);
    }
}

/// A run of digits keeps the automaton in a state that reads digits.
proof fn lemma_digit_run(s: Seq<u8>, p: int, a: int)
    requires
        0 <= p <= a <= s.len(),
        state_at(s, p, a - p) == NumberState::Integer || state_at(s, p, a - p)
            == NumberState::Fraction || state_at(s, p, a - p) == NumberState::ExponentDigits,
    ensures
        state_at(s, p, skip_digits(s, a) - p) == state_at(s, p, a - p),
    decreases s.len() - a,
{
    if a < s.len() && is_digit(s[a]) {
        lemma_state_step(s, p, a - p);
        lemma_digit_run(s, p, a + 1);
    }
}

/// Bytes that are `-` or digits hold no `.`, `e` or `E`.
proof fn lemma_no_marks(t: Seq<u8>)
    requires
        forall|i: int| 0 <= i < t.len() ==> t[i] == MINUS || is_digit(#[trigger] t[i]),
    ensures
        !has_fraction_or_exponent(t),
{
    assert forall|i: int| 0 <= i < t.len() implies !(t[i] == DOT || is_exponent_mark(
        #[trigger] t[i],
    )) by {
        assert(t[i] == MINUS || is_digit(t[i]));
    }
}

/// Where the automaton stops when the exponent part is read from `f` on,
/// after a whole number without one.
proof fn lemma_exponent_path<E>(s: Seq<u8>, p: int, f: int) -> (j: int)
    requires
        0 <= p <= f <= s.len(),
        is_json_number(s.subrange(p, f)),
        state_at(s, p, f - p) != NumberState::ExponentDigits,
        f < s.len() && !is_exponent_mark(s[f]) ==> number_step(state_at(s, p, f - p), s[f])
            == NumberState::Dead,
    ensures
        f - p <= j <= s.len() - p,
        state_at(s, p, j) != NumberState::Dead,
        p + j < s.len() ==> state_at(s, p, j + 1) == NumberState::Dead,
        exponent_part::<E>(s, f) matches Ok((x, marked)) ==> x == p + j && is_json_number(
            s.subrange(p, p + j),
        ) && (marked ==> has_fraction_or_exponent(s.subrange(p, p + j))) && (!marked ==> x == f),
        exponent_part::<E>(s, f) matches Err((e, l)) ==> !is_json_number(s.subrange(p, p + j))
            && (p + j == s.len() ==> e == ParseError::<E>::Eof && l == p + j) && (p + j < s.len()
            ==> e == ParseError::<E>::ExpectedDigit && l == p + j + 1),
{
    if f < s.len() && is_exponent_mark(s[f]) {
        lemma_state_step(s, p, f - p);
        let e = if f + 1 < s.len() && (s[f + 1] == PLUS || s[f + 1] == MINUS) {
            lemma_state_step(s, p, f + 1 - p);
            f + 2
        } else {
            f + 1
        };
        if e >= s.len() {
            return e - p;
        }
        lemma_state_step(s, p, e - p);
        if !is_digit(s[e]) {
            return e - p;
        }
        lemma_skip_digits(s, e + 1);
        lemma_digit_run(s, p, e + 1);
        let x = skip_digits(s, e + 1);
        if x < s.len() {
            lemma_state_step(s, p, x - p);
        }
        let t = s.subrange(p, x);
        assert(t[f - p] == s[f]);
        x - p
    } else {
        if f < s.len() {
            lemma_state_step(s, p, f - p);
        }
        f - p
    }
}

/// Follows the number reader from `p`: it stops at the first byte that the
/// automaton cannot take, and its answer depends on the state reached.
#[verifier::rlimit(60)]
proof fn lemma_number_path<E>(s: Seq<u8>, p: int) -> (j: int)
    requires
        0 <= p <= s.len(),
    ensures
        0 <= j <= s.len() - p,
        state_at(s, p, j) != NumberState::Dead,
        p + j < s.len() ==> state_at(s, p, j + 1) == NumberState::Dead,
        is_json_number(s.subrange(p, p + j)) ==> number::<E>(s, p) == Ok::<
            ((Seq<u8>, bool), int),
            (ParseError<E>, int),
        >(
            (
                (s.subrange(p, p + j), has_fraction_or_exponent(s.subrange(p, p + j))),
                p + j,
            ),
        ),
        !is_json_number(s.subrange(p, p + j)) && p + j == s.len() ==> number::<E>(s, p)
            == Err::<((Seq<u8>, bool), int), (ParseError<E>, int)>((ParseError::Eof, p + j)),
        !is_json_number(s.subrange(p, p + j)) && p + j < s.len() ==> number::<E>(s, p)
            == Err::<((Seq<u8>, bool), int), (ParseError<E>, int)>(
            (ParseError::ExpectedDigit, p + j + 1),
        ),
{
    assert(s.subrange(p, p) =~= Seq::<u8>::empty());
    if p == s.len() {
        return 0;
    }
    lemma_state_step(s, p, 0);
    let q = if s[p] == MINUS {
        p + 1
    } else {
        p
    };
    if q >= s.len() {
        return q - p;
    }
    lemma_state_step(s, p, q - p);
    if !is_digit(s[q]) {
        return q - p;
    }
    // The integer part ends at `i`.

    let i = if s[q] == DIGIT_ZERO {
        q + 1
    } else {
        lemma_skip_digits(s, q + 1);
        lemma_digit_run(s, p, q + 1);
        skip_digits(s, q + 1)
    };
    assert(forall|k: int| p <= k < i ==> s[k] == MINUS || is_digit(#[trigger] s[k]));
    // The fraction part, if any, ends at `f`.
    let f = if i < s.len() && s[i] == DOT {
        lemma_state_step(s, p, i - p);
        if i + 1 >= s.len() {
            return i + 1 - p;
        }
        lemma_state_step(s, p, i + 1 - p);
        if !is_digit(s[i + 1]) {
            return i + 1 - p;
        }
        lemma_skip_digits(s, i + 2);
        lemma_digit_run(s, p, i + 2);
        skip_digits(s, i + 2)
    } else {
        i
    };
    assert(f > i ==> s[i] == DOT);
    if f < s.len() {
        lemma_state_step(s, p, f - p);
    }
    let j = lemma_exponent_path::<E>(s, p, f);
    let t = s.subrange(p, p + j);
    if j == f - p {
        if f > i {
            assert(t[i - p] == DOT);
        } else {
            assert forall|k: int| 0 <= k < t.len() implies t[k] == MINUS || is_digit(
                #[trigger] t[k],
            ) by {
                assert(t[k] == s[p + k]);
            }
            lemma_no_marks(t);
        }
    }
    j
}

/// The number reader takes the longest run of bytes from `p` that can still
/// begin a JSON number.  It succeeds exactly when that run is a whole number,
/// and then gives the run itself, whether it holds a `.`, `e` or `E`, and
/// the position after it.  Otherwise it fails with `Eof` when the run reaches
/// the end of the input, and with `ExpectedDigit` just after the first byte
/// that cannot continue the run.
pub proof fn law_number_longest_prefix<E>(s: Seq<u8>, p: int, k: int)
    requires
        0 <= p <= p + k <= s.len(),
        is_number_prefix(s.subrange(p, p + k)),
        p + k == s.len() || !is_number_prefix(s.subrange(p, p + k + 1)),
    ensures
        is_json_number(s.subrange(p, p + k)) ==> number::<E>(s, p) == Ok::<
            ((Seq<u8>, bool), int),
            (ParseError<E>, int),
        >(
            (
                (s.subrange(p, p + k), has_fraction_or_exponent(s.subrange(p, p + k))),
                p + k,
            ),
        ),
        !is_json_number(s.subrange(p, p + k)) && p + k == s.len() ==> number::<E>(s, p)
            == Err::<((Seq<u8>, bool), int), (ParseError<E>, int)>((ParseError::Eof, p + k)),
        !is_json_number(s.subrange(p, p + k)) && p + k < s.len() ==> number::<E>(s, p)
            == Err::<((Seq<u8>, bool), int), (ParseError<E>, int)>(
            (ParseError::ExpectedDigit, p + k + 1),
        ),
{
    let j = lemma_number_path::<E>(s, p);
    if j < k {
        lemma_dead_stays(s, p, j + 1, k);
    } else if k < j {
        lemma_dead_stays(s, p, k + 1, j);
    }
    assert(j == k);
}


/// Every JSON number, as a whole document, is that number: its value keeps
/// its text, and it is a float exactly when it holds a `.`, an `e` or an
/// `E`, whatever the depth limit.
pub proof fn law_number_document<E>(t: Seq<u8>, limit: Option<usize>)
    requires
        is_json_number(t),
    ensures
        document::<E>(t, limit) == Ok::<JsonModel, (ParseError<E>, int)>(
            JsonModel::Number(t, has_fraction_or_exponent(t)),
        ),
{
    assert(t.subrange(0, t.len() as int) =~= t);
    assert(t.subrange(0, 0) =~= Seq::<u8>::empty());
    assert(t.len() > 0);
    lemma_state_step(t, 0, 0);
    if number_step(NumberState::Start, t[0]) == NumberState::Dead {
        lemma_dead_stays(t, 0, 1, t.len() as int);
    }
    assert(t[0] == MINUS || is_decimal(t[0]));
    assert(skip_ws(t, 0) == 0);
    law_number_longest_prefix::<E>(t, 0, t.len() as int);
    assert(skip_ws(t, t.len() as int) == t.len());
}
} // verus!
