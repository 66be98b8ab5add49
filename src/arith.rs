use vstd::prelude::*;
use crate::rational::{
    Rational, fits_i64, make, rat_add, rat_sub, rat_mul, rat_div, checked_add, checked_sub,
    checked_mul, checked_div, lemma_prod_bound,
};
use crate::token::ErrorKind;
use vstd::arithmetic::div_mod::{lemma_fundamental_div_mod, lemma_fundamental_div_mod_converse, lemma_mod_pos_bound};

verus! {

/// `b` raised to the natural power `e`.
pub open spec fn ipow(b: int, e: nat) -> int
    decreases e,
{
    if e == 0 {
        1
    } else {
        b * ipow(b, (e - 1) as nat)
    }
}

pub open spec fn abs(x: int) -> int {
    if x < 0 {
        -x
    } else {
        x
    }
}

/// `a` raised to the power `b`, which must be a whole number; a negative
/// power is the reciprocal of the positive one.
pub open spec fn rat_pow(a: Rational, b: Rational) -> Result<Rational, ErrorKind> {
    if (b.num as int) % (b.den as int) != 0 {
        Err(ErrorKind::NonIntegerPower)
    } else {
        let e = (b.num as int) / (b.den as int);
        if e >= 0 {
            match make(ipow(a.num as int, e as nat), ipow(a.den as int, e as nat)) {
                Some(r) => Ok(r),
                None => Err(ErrorKind::Overflow),
            }
        } else if a.num == 0 {
            Err(ErrorKind::DivisionByZero)
        } else {
            match make(ipow(a.num as int, (-e) as nat), ipow(a.den as int, (-e) as nat)) {
                Some(p) => overflow_of(rat_div(Rational { num: 1, den: 1 }, p)),
                None => Err(ErrorKind::Overflow),
            }
        }
    }
}

pub open spec fn overflow_of(r: Option<Rational>) -> Result<Rational, ErrorKind> {
    match r {
        Some(v) => Ok(v),
        None => Err(ErrorKind::Overflow),
    }
}

/// `a op b` for the five operators, exactly.
pub open spec fn apply_spec(a: Rational, op: char, b: Rational) -> Result<Rational, ErrorKind> {
    if op == '+' {
        overflow_of(rat_add(a, b))
    } else if op == '-' {
        overflow_of(rat_sub(a, b))
    } else if op == '*' {
        overflow_of(rat_mul(a, b))
    } else if op == '/' {
        if b.num == 0 {
            Err(ErrorKind::DivisionByZero)
        } else {
            overflow_of(rat_div(a, b))
        }
    } else if op == '^' {
        rat_pow(a, b)
    } else {
        Err(ErrorKind::UnsupportedOperator(op))
    }
}

proof fn lemma_ipow_abs_grows(b: int, k: nat, m: nat)
    requires
        abs(b) >= 1,
        k <= m,
    ensures
        abs(ipow(b, m)) >= abs(ipow(b, k)),
    decreases m - k,
{
    if m > k {
        lemma_ipow_abs_grows(b, k, (m - 1) as nat);
        let p = ipow(b, (m - 1) as nat);
        assert(abs(b * p) >= abs(p)) by (nonlinear_arith)
            requires
                abs(b) >= 1,
        ;
    }
}

proof fn lemma_ipow_unit(b: int, e: nat)
    requires
        -1 <= b <= 1,
    ensures
        b == 0 ==> ipow(b, e) == if e == 0 { 1int } else { 0int },
        b == 1 ==> ipow(b, e) == 1,
        b == -1 ==> ipow(b, e) == if e % 2 == 0 { 1int } else { -1int },
    decreases e,
{
    if e > 0 {
        lemma_ipow_unit(b, (e - 1) as nat);
    }
}

proof fn lemma_ipow_pos(b: int, e: nat)
    requires
        b > 0,
    ensures
        ipow(b, e) > 0,
    decreases e,
{
    if e > 0 {
        lemma_ipow_pos(b, (e - 1) as nat);
        let p = ipow(b, (e - 1) as nat);
        assert(b * p > 0) by (nonlinear_arith)
            requires
                b > 0,
                p > 0,
        ;
    }
}

/// `b` to the power `e`, when it fits in 64 bits.
fn int_pow(b: i64, e: u64) -> (r: Option<i64>)
    ensures
        r == (if fits_i64(ipow(b as int, e as nat)) {
            Some(ipow(b as int, e as nat) as i64)
        } else {
            None::<i64>
        }),
{
    if b == 0 || b == 1 || b == -1 {
        proof { lemma_ipow_unit(b as int, e as nat); }
        if b == 0 {
            return if e == 0 { Some(1) } else { Some(0) };
        } else if b == 1 {
            return Some(1);
        } else {
            return if e % 2 == 0 { Some(1) } else { Some(-1) };
        }
    }
    let mut acc: i64 = 1;
    let mut k: u64 = 0;
    while k < e
        invariant
            k <= e,
            abs(b as int) >= 2,
            acc as int == ipow(b as int, k as nat),
        decreases e - k,
    {
        proof { lemma_prod_bound(acc as int, b as int); }
        let p = (acc as i128) * (b as i128);
        assert(p == b * acc) by (nonlinear_arith)
            requires
                p == acc * b,
        ;
        if p < i64::MIN as i128 || p > i64::MAX as i128 {
            proof {
                assert(ipow(b as int, (k + 1) as nat) == p);
                if e > k + 1 {
                    lemma_ipow_abs_grows(b as int, (k + 2) as nat, e as nat);
                    assert(ipow(b as int, (k + 2) as nat) == b * p);
                    assert(abs(b * p) >= 2 * abs(p as int)) by (nonlinear_arith)
                        requires
                            abs(b as int) >= 2,
                    ;
                }
            }
            return None;
        }
        acc = p as i64;
        k = k + 1;
    }
    Some(acc)
}

fn overflow_to_error(r: Option<Rational>) -> (out: Result<Rational, ErrorKind>)
    ensures
        out == overflow_of(r),
{
    match r {
        Some(v) => Ok(v),
        None => Err(ErrorKind::Overflow),
    }
}

/// `a` to the power `b`; the exponent must be a whole number.
pub fn power(a: Rational, b: Rational) -> (r: Result<Rational, ErrorKind>)
    requires
        a.wf(),
        b.wf(),
    ensures
        r == rat_pow(a, b),
        r matches Ok(v) ==> v.wf(),
{
    let n = b.num as i128;
    let d = b.den as i128;
    let an: i128 = if n < 0 { -n } else { n };
    proof { lemma_whole(n as int, d as int); }
    if an % d != 0 {
        return Err(ErrorKind::NonIntegerPower);
    }
    let q: i128 = an / d;
    proof {
        lemma_mod_pos_bound(an as int, d as int);
        lemma_fundamental_div_mod(an as int, d as int);
        assert(0 <= q <= an) by (nonlinear_arith)
            requires
                an == d * q,
                d > 0,
                an >= 0,
        ;
    }
    let e: i64 = if n < 0 { (-q) as i64 } else { q as i64 };
    assert(e as int == (b.num as int) / (b.den as int));
    if e >= 0 {
        proof { lemma_ipow_pos(a.den as int, e as nat); }
        match (int_pow(a.num, e as u64), int_pow(a.den, e as u64)) {
            (Some(n), Some(d)) => Ok(Rational { num: n, den: d }),
            _ => Err(ErrorKind::Overflow),
        }
    } else if a.num == 0 {
        Err(ErrorKind::DivisionByZero)
    } else {
        let k: u64 = if e == i64::MIN { 0x8000_0000_0000_0000u64 } else { (-e) as u64 };
        assert(k as int == -e);
        proof {
            lemma_ipow_pos(a.den as int, k as nat);
            lemma_ipow_nonzero(a.num as int, k as nat);
        }
        match (int_pow(a.num, k), int_pow(a.den, k)) {
            (Some(n), Some(d)) => overflow_to_error(checked_div(Rational { num: 1, den: 1 }, Rational { num: n, den: d })),
            _ => Err(ErrorKind::Overflow),
        }
    }
}

/// A rational is a whole number exactly when its absolute numerator is a
/// multiple of its denominator, and the quotient carries the sign.
proof fn lemma_whole(num: int, den: int)
    requires
        den > 0,
    ensures
        (num % den == 0) == (abs(num) % den == 0),
        num % den == 0 ==> num / den == (if num < 0 { -(abs(num) / den) } else { abs(num) / den }),
{
    let an = abs(num);
    lemma_mod_pos_bound(an, den);
    lemma_fundamental_div_mod(an, den);
    lemma_fundamental_div_mod(num, den);
    let q = an / den;
    if an % den == 0 {
        if num < 0 {
            assert(num == (-q) * den + 0) by (nonlinear_arith)
                requires
                    an == den * q + 0,
                    num == -an,
            ;
            lemma_fundamental_div_mod_converse(num, den, -q, 0);
        } else {
            assert(num == q * den + 0) by (nonlinear_arith)
                requires
                    an == den * q + 0,
                    num == an,
            ;
            lemma_fundamental_div_mod_converse(num, den, q, 0);
        }
    } else if num % den == 0 {
        let p = num / den;
        if num < 0 {
            assert(an == (-p) * den + 0) by (nonlinear_arith)
                requires
                    num == den * p + 0,
                    an == -num,
            ;
            lemma_fundamental_div_mod_converse(an, den, -p, 0);
        } else {
            assert(an == p * den + 0) by (nonlinear_arith)
                requires
                    num == den * p + 0,
                    an == num,
            ;
            lemma_fundamental_div_mod_converse(an, den, p, 0);
        }
    }
}

proof fn lemma_ipow_nonzero(b: int, e: nat)
    requires
        b != 0,
    ensures
        ipow(b, e) != 0,
    decreases e,
{
    if e > 0 {
        lemma_ipow_nonzero(b, (e - 1) as nat);
        let p = ipow(b, (e - 1) as nat);
        assert(b * p != 0) by (nonlinear_arith)
            requires
                b != 0,
                p != 0,
        ;
    }
}

/// Applies one of the five operators to two rationals, exactly.
pub fn apply(a: Rational, op: char, b: Rational) -> (r: Result<Rational, ErrorKind>)
    requires
        a.wf(),
        b.wf(),
    ensures
        r == apply_spec(a, op, b),
        r matches Ok(v) ==> v.wf(),
{
    if op == '+' {
        overflow_to_error(checked_add(a, b))
    } else if op == '-' {
        overflow_to_error(checked_sub(a, b))
    } else if op == '*' {
        overflow_to_error(checked_mul(a, b))
    } else if op == '/' {
        if b.num == 0 {
            Err(ErrorKind::DivisionByZero)
        } else {
            overflow_to_error(checked_div(a, b))
        }
    } else if op == '^' {
        power(a, b)
    } else {
        Err(ErrorKind::UnsupportedOperator(op))
    }
}

} // verus!
