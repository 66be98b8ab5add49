use vstd::prelude::*;

verus! {

/// A rational number `num / den`. Values are kept exactly as they were
/// computed (not reduced); `den` is always positive for a well-formed value.
#[derive(Clone, Copy, Debug, PartialEq, Eq, Structural)]
pub struct Rational {
    pub num: i64,
    pub den: i64,
}

pub open spec fn fits_i64(x: int) -> bool {
    i64::MIN <= x <= i64::MAX
}

/// The rational with numerator `n` and denominator `d`, when both fit.
pub open spec fn make(n: int, d: int) -> Option<Rational> {
    if fits_i64(n) && fits_i64(d) {
        Some(Rational { num: n as i64, den: d as i64 })
    } else {
        None
    }
}

impl Rational {
    pub open spec fn wf(self) -> bool {
        self.den > 0
    }

    /// Whether two rationals denote the same number.
    pub open spec fn same(self, o: Rational) -> bool {
        self.num * o.den == o.num * self.den
    }

    pub open spec fn is_zero_spec(self) -> bool {
        self.num == 0
    }

    pub fn from_int(n: i64) -> (r: Rational)
        ensures
            r.num == n,
            r.den == 1,
    {
        Rational { num: n, den: 1 }
    }

    pub fn is_zero(&self) -> (r: bool)
        ensures
            r == self.is_zero_spec(),
    {
        self.num == 0
    }

    /// Whether `self` and `other` denote the same number.
    pub fn same_value(&self, other: &Rational) -> (r: bool)
        ensures
            r == self.same(*other),
    {
        proof {
            lemma_prod_bound(self.num as int, other.den as int);
            lemma_prod_bound(other.num as int, self.den as int);
        }
        (self.num as i128) * (other.den as i128) == (other.num as i128) * (self.den as i128)
    }
}

pub open spec fn rat_add(a: Rational, b: Rational) -> Option<Rational> {
    make(a.num * b.den + b.num * a.den, a.den * b.den)
}

pub open spec fn rat_sub(a: Rational, b: Rational) -> Option<Rational> {
    make(a.num * b.den - b.num * a.den, a.den * b.den)
}

pub open spec fn rat_mul(a: Rational, b: Rational) -> Option<Rational> {
    make(a.num * b.num, a.den * b.den)
}

/// Quotient of `a` by a nonzero `b`, with the sign carried by the numerator.
pub open spec fn rat_div(a: Rational, b: Rational) -> Option<Rational> {
    if b.num > 0 {
        make(a.num * b.den, a.den * b.num)
    } else {
        make(-(a.num * b.den), -(a.den * b.num))
    }
}

fn narrow(n: i128, d: i128) -> (r: Option<Rational>)
    ensures
        r == make(n as int, d as int),
{
    if n < i64::MIN as i128 || n > i64::MAX as i128 || d < i64::MIN as i128 || d > i64::MAX as i128 {
        None
    } else {
        Some(Rational { num: n as i64, den: d as i64 })
    }
}

/// Exact sum; `None` when the result does not fit.
pub fn checked_add(a: Rational, b: Rational) -> (r: Option<Rational>)
    requires
        a.wf(),
        b.wf(),
    ensures
        r == rat_add(a, b),
        r matches Some(v) ==> v.wf(),
{
    proof {
        lemma_scaled_bound(a.num as int, b.den as int);
        lemma_scaled_bound(b.num as int, a.den as int);
        lemma_prod_bound(a.den as int, b.den as int);
        lemma_pos_prod(a.den as int, b.den as int);
    }
    let n = (a.num as i128) * (b.den as i128) + (b.num as i128) * (a.den as i128);
    let d = (a.den as i128) * (b.den as i128);
    narrow(n, d)
}

/// Exact difference; `None` when the result does not fit.
pub fn checked_sub(a: Rational, b: Rational) -> (r: Option<Rational>)
    requires
        a.wf(),
        b.wf(),
    ensures
        r == rat_sub(a, b),
        r matches Some(v) ==> v.wf(),
{
    proof {
        lemma_scaled_bound(a.num as int, b.den as int);
        lemma_scaled_bound(b.num as int, a.den as int);
        lemma_prod_bound(a.den as int, b.den as int);
        lemma_pos_prod(a.den as int, b.den as int);
    }
    let n = (a.num as i128) * (b.den as i128) - (b.num as i128) * (a.den as i128);
    let d = (a.den as i128) * (b.den as i128);
    narrow(n, d)
}

/// Exact product; `None` when the result does not fit.
pub fn checked_mul(a: Rational, b: Rational) -> (r: Option<Rational>)
    requires
        a.wf(),
        b.wf(),
    ensures
        r == rat_mul(a, b),
        r matches Some(v) ==> v.wf(),
{
    proof {
        lemma_prod_bound(a.num as int, b.num as int);
        lemma_prod_bound(a.den as int, b.den as int);
        lemma_pos_prod(a.den as int, b.den as int);
    }
    let n = (a.num as i128) * (b.num as i128);
    let d = (a.den as i128) * (b.den as i128);
    narrow(n, d)
}

/// Exact quotient by a nonzero divisor; `None` when the result does not fit.
pub fn checked_div(a: Rational, b: Rational) -> (r: Option<Rational>)
    requires
        a.wf(),
        b.wf(),
        b.num != 0,
    ensures
        r == rat_div(a, b),
        r matches Some(v) ==> v.wf(),
{
    proof {
        lemma_scaled_bound(a.num as int, b.den as int);
        lemma_prod_bound(a.den as int, b.num as int);
        if b.num > 0 {
            lemma_pos_prod(a.den as int, b.num as int);
        } else {
            lemma_pos_prod(a.den as int, -b.num);
            assert(a.den * (-b.num) == -(a.den * b.num)) by (nonlinear_arith);
        }
    }
    let n = (a.num as i128) * (b.den as i128);
    let d = (a.den as i128) * (b.num as i128);
    if b.num > 0 {
        narrow(n, d)
    } else {
        narrow(-n, -d)
    }
}

pub proof fn lemma_prod_bound(x: int, y: int)
    requires
        fits_i64(x),
        fits_i64(y),
    ensures
        -0x4000_0000_0000_0000_0000_0000_0000_0000 <= x * y <= 0x4000_0000_0000_0000_0000_0000_0000_0000,
{
    assert(-0x4000_0000_0000_0000_0000_0000_0000_0000 <= x * y <= 0x4000_0000_0000_0000_0000_0000_0000_0000) by (nonlinear_arith)
        requires
            -0x8000_0000_0000_0000 <= x <= 0x7fff_ffff_ffff_ffff,
            -0x8000_0000_0000_0000 <= y <= 0x7fff_ffff_ffff_ffff,
    ;
}

proof fn lemma_scaled_bound(x: int, y: int)
    requires
        fits_i64(x),
        0 < y <= i64::MAX,
    ensures
        -0x3fff_ffff_ffff_ffff_8000_0000_0000_0000 <= x * y <= 0x3fff_ffff_ffff_ffff_8000_0000_0000_0000,
{
    assert(-0x3fff_ffff_ffff_ffff_8000_0000_0000_0000 <= x * y <= 0x3fff_ffff_ffff_ffff_8000_0000_0000_0000) by (nonlinear_arith)
        requires
            -0x8000_0000_0000_0000 <= x <= 0x7fff_ffff_ffff_ffff,
            0 < y <= 0x7fff_ffff_ffff_ffff,
    ;
}

proof fn lemma_pos_prod(x: int, y: int)
    requires
        x > 0,
        y > 0,
    ensures
        x * y > 0,
{
    assert(x * y > 0) by (nonlinear_arith)
        requires
            x > 0,
            y > 0,
    ;
}

} // verus!
