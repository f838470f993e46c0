//! Recognition of number literals, by the grammar of Rust's `f64` parser:
//!
//! ```text
//! Float  ::= Sign? ( 'inf' | 'infinity' | 'nan' | Number )   (letters in any case)
//! Number ::= ( Digit+ | Digit+ '.' Digit* | Digit* '.' Digit+ ) Exp?
//! Exp    ::= ('e' | 'E') Sign? Digit+
//! Sign   ::= '+' | '-'
//! ```
use vstd::prelude::*;
use crate::tape::first_fail;

verus! {

pub open spec fn is_digit(c: u8) -> bool {
    48u8 <= c <= 57u8
}

pub open spec fn all_digits(t: Seq<u8>) -> bool {
    forall|i: int| 0 <= i < t.len() ==> is_digit(#[trigger] t[i])
}

/// ASCII lower case.
pub open spec fn lower(c: u8) -> u8 {
    if 65u8 <= c <= 90u8 {
        (c + 32) as u8
    } else {
        c
    }
}

/// `t` spells the lower-case word `w`, in any case.
pub open spec fn ci_eq(t: Seq<u8>, w: Seq<u8>) -> bool {
    t.len() == w.len() && forall|i: int| 0 <= i < t.len() ==> lower(#[trigger] t[i]) == w[i]
}

/// The literal without a leading sign.
pub open spec fn unsigned(t: Seq<u8>) -> Seq<u8> {
    if t.len() > 0 && (t[0] == 43u8 || t[0] == 45u8) {
        t.drop_first()
    } else {
        t
    }
}

pub open spec fn pred_not_dot() -> spec_fn(u8) -> bool {
    |c: u8| c != 46u8
}

pub open spec fn pred_not_exp() -> spec_fn(u8) -> bool {
    |c: u8| c != 101u8 && c != 69u8
}

/// `Digit+ | Digit+ '.' Digit* | Digit* '.' Digit+`
pub open spec fn mantissa_ok(m: Seq<u8>) -> bool {
    let k = first_fail(m, 0, pred_not_dot());
    if k == m.len() {
        m.len() >= 1 && all_digits(m)
    } else {
        m.len() >= 2 && all_digits(m.subrange(0, k)) && all_digits(m.subrange(k + 1, m.len() as int))
    }
}

/// `Sign? Digit+`, the part of an exponent after `e`.
pub open spec fn exponent_ok(x: Seq<u8>) -> bool {
    unsigned(x).len() >= 1 && all_digits(unsigned(x))
}

pub open spec fn decimal_ok(u: Seq<u8>) -> bool {
    let e = first_fail(u, 0, pred_not_exp());
    mantissa_ok(u.subrange(0, e)) && (e == u.len() || exponent_ok(u.subrange(e + 1, u.len() as int)))
}

pub open spec fn word_inf() -> Seq<u8> {
    seq![105u8, 110u8, 102u8]
}

pub open spec fn word_infinity() -> Seq<u8> {
    seq![105u8, 110u8, 102u8, 105u8, 110u8, 105u8, 116u8, 121u8]
}

pub open spec fn word_nan() -> Seq<u8> {
    seq![110u8, 97u8, 110u8]
}

/// The text is accepted by Rust's `f64` parser.
pub open spec fn float_literal(t: Seq<u8>) -> bool {
    let u = unsigned(t);
    ci_eq(u, word_inf()) || ci_eq(u, word_infinity()) || ci_eq(u, word_nan()) || decimal_ok(u)
}

/// The text is parsed by Rust's `f64` parser as NaN.
pub open spec fn nan_literal(t: Seq<u8>) -> bool {
    ci_eq(unsigned(t), word_nan())
}

fn lower_byte(c: u8) -> (r: u8)
    ensures
        r == lower(c),
{
    if 65u8 <= c && c <= 90u8 {
        c + 32
    } else {
        c
    }
}

fn all_digits_exec(t: &[u8]) -> (b: bool)
    ensures
        b == all_digits(t@),
{
    let mut i: usize = 0;
    while i < t.len()
        invariant
            i <= t@.len(),
            forall|j: int| 0 <= j < i ==> is_digit(#[trigger] t@[j]),
        decreases t@.len() - i,
    {
        if !(48u8 <= t[i] && t[i] <= 57u8) {
            return false;
        }
        i += 1;
    }
    true
}

/// Index of the first byte equal to `a` or `b`, or the length.
fn first_of(t: &[u8], a: u8, b: u8, Ghost(p): Ghost<spec_fn(u8) -> bool>) -> (k: usize)
    requires
        forall|c: u8| #[trigger] p(c) == (c != a && c != b),
    ensures
        k == first_fail(t@, 0, p),
        k <= t@.len(),
{
    let mut i: usize = 0;
    while i < t.len()
        invariant
            i <= t@.len(),
            forall|c: u8| #[trigger] p(c) == (c != a && c != b),
            first_fail(t@, 0, p) == first_fail(t@, i as int, p),
        decreases t@.len() - i,
    {
        if t[i] == a || t[i] == b {
            return i;
        }
        i += 1;
    }
    i
}

/// Whether `t` spells `w` (given in lower case) in any case.
fn ci_eq_exec(t: &[u8], w: &[u8]) -> (b: bool)
    ensures
        b == ci_eq(t@, w@),
{
    if t.len() != w.len() {
        return false;
    }
    let mut i: usize = 0;
    while i < t.len()
        invariant
            i <= t@.len(),
            t@.len() == w@.len(),
            forall|j: int| 0 <= j < i ==> lower(#[trigger] t@[j]) == w@[j],
        decreases t@.len() - i,
    {
        if lower_byte(t[i]) != w[i] {
            return false;
        }
        i += 1;
    }
    true
}

fn unsigned_exec(t: &[u8]) -> (u: &[u8])
    ensures
        u@ == unsigned(t@),
{
    if t.len() > 0 && (t[0] == 43u8 || t[0] == 45u8) {
        let u = &t[1..t.len()];
        assert(u@ == t@.drop_first());
        u
    } else {
        t
    }
}

fn mantissa_ok_exec(m: &[u8]) -> (b: bool)
    ensures
        b == mantissa_ok(m@),
{
    let k = first_of(m, 46u8, 46u8, Ghost(pred_not_dot()));
    if k == m.len() {
        m.len() >= 1 && all_digits_exec(m)
    } else {
        m.len() >= 2 && all_digits_exec(&m[0..k]) && all_digits_exec(&m[k + 1..m.len()])
    }
}

fn decimal_ok_exec(u: &[u8]) -> (b: bool)
    ensures
        b == decimal_ok(u@),
{
    let e = first_of(u, 101u8, 69u8, Ghost(pred_not_exp()));
    if !mantissa_ok_exec(&u[0..e]) {
        return false;
    }
    if e == u.len() {
        return true;
    }
    let x = unsigned_exec(&u[e + 1..u.len()]);
    x.len() >= 1 && all_digits_exec(x)
}

/// Classifies a number literal: `(accepted, is_nan)`, where `accepted` tells
/// whether Rust's `f64` parser accepts the text and `is_nan` whether it reads NaN.
pub fn classify_float(t: &[u8]) -> (r: (bool, bool))
    ensures
        r.0 == float_literal(t@),
        r.1 == nan_literal(t@),
{
    let u = unsigned_exec(t);
    let inf = [105u8, 110u8, 102u8];
    let infinity = [105u8, 110u8, 102u8, 105u8, 110u8, 105u8, 116u8, 121u8];
    let nan = [110u8, 97u8, 110u8];
    assert(inf@ == word_inf());
    assert(infinity@ == word_infinity());
    assert(nan@ == word_nan());
    let is_nan = ci_eq_exec(u, nan.as_slice());
    let ok = ci_eq_exec(u, inf.as_slice()) || ci_eq_exec(u, infinity.as_slice()) || is_nan
        || decimal_ok_exec(u);
    (ok, is_nan)
}

} // verus!
