//! Exact rational numbers with checked arithmetic.
use vstd::prelude::*;

verus! {

/// The rational number `num / den`. Values are kept as produced (not reduced);
/// a well-formed value has a positive denominator.
#[derive(Clone, Copy, Debug, PartialEq, Eq, Structural)]
pub struct Number {
    pub num: i128,
    pub den: i128,
}

pub open spec fn fits(x: int) -> bool {
    i128::MIN <= x <= i128::MAX
}

impl Number {
    pub open spec fn wf(self) -> bool {
        self.den > 0
    }

    pub open spec fn spec_one() -> Number {
        Number { num: 1, den: 1 }
    }

    pub fn one() -> (r: Number)
        ensures
            r == Number::spec_one(),
    {
        Number { num: 1, den: 1 }
    }

    pub fn is_zero(&self) -> (r: bool)
        ensures
            r == (self.num == 0),
    {
        self.num == 0
    }
}

/// `a + b` as `(a.num * b.den + b.num * a.den) / (a.den * b.den)`, or `None`
/// when a step leaves the range of `i128`.
pub open spec fn spec_add(a: Number, b: Number) -> Option<Number> {
    let p = a.num * b.den;
    let q = b.num * a.den;
    let d = a.den * b.den;
    if fits(p) && fits(q) && fits(p + q) && fits(d) {
        Some(Number { num: (p + q) as i128, den: d as i128 })
    } else {
        None
    }
}

/// `a - b` as `(a.num * b.den - b.num * a.den) / (a.den * b.den)`.
pub open spec fn spec_sub(a: Number, b: Number) -> Option<Number> {
    let p = a.num * b.den;
    let q = b.num * a.den;
    let d = a.den * b.den;
    if fits(p) && fits(q) && fits(p - q) && fits(d) {
        Some(Number { num: (p - q) as i128, den: d as i128 })
    } else {
        None
    }
}

/// `a * b` as `(a.num * b.num) / (a.den * b.den)`.
pub open spec fn spec_mul(a: Number, b: Number) -> Option<Number> {
    let n = a.num * b.num;
    let d = a.den * b.den;
    if fits(n) && fits(d) {
        Some(Number { num: n as i128, den: d as i128 })
    } else {
        None
    }
}

/// `a / b` for `b` non-zero as `(a.num * b.den) / (a.den * b.num)`, with both
/// signs flipped when that denominator is negative.
pub open spec fn spec_div(a: Number, b: Number) -> Option<Number> {
    let n = a.num * b.den;
    let d = a.den * b.num;
    if !fits(n) || !fits(d) {
        None
    } else if d < 0 {
        if fits(-n) && fits(-d) {
            Some(Number { num: (-n) as i128, den: (-d) as i128 })
        } else {
            None
        }
    } else {
        Some(Number { num: n as i128, den: d as i128 })
    }
}

/// `-a`.
pub open spec fn spec_neg(a: Number) -> Option<Number> {
    if fits(-a.num) {
        Some(Number { num: (-a.num) as i128, den: a.den })
    } else {
        None
    }
}

pub fn add_num(a: Number, b: Number) -> (r: Option<Number>)
    ensures
        r == spec_add(a, b),
        a.wf() && b.wf() && r is Some ==> r->Some_0.wf(),
{
    let p = match a.num.checked_mul(b.den) { Some(x) => x, None => return None };
    let q = match b.num.checked_mul(a.den) { Some(x) => x, None => return None };
    let s = match p.checked_add(q) { Some(x) => x, None => return None };
    let d = match a.den.checked_mul(b.den) { Some(x) => x, None => return None };
    proof {
        if a.wf() && b.wf() {
            assert(a.den * b.den > 0) by (nonlinear_arith) requires a.den > 0, b.den > 0;
        }
    }
    Some(Number { num: s, den: d })
}

pub fn sub_num(a: Number, b: Number) -> (r: Option<Number>)
    ensures
        r == spec_sub(a, b),
        a.wf() && b.wf() && r is Some ==> r->Some_0.wf(),
{
    let p = match a.num.checked_mul(b.den) { Some(x) => x, None => return None };
    let q = match b.num.checked_mul(a.den) { Some(x) => x, None => return None };
    let s = match p.checked_sub(q) { Some(x) => x, None => return None };
    let d = match a.den.checked_mul(b.den) { Some(x) => x, None => return None };
    proof {
        if a.wf() && b.wf() {
            assert(a.den * b.den > 0) by (nonlinear_arith) requires a.den > 0, b.den > 0;
        }
    }
    Some(Number { num: s, den: d })
}

pub fn mul_num(a: Number, b: Number) -> (r: Option<Number>)
    ensures
        r == spec_mul(a, b),
        a.wf() && b.wf() && r is Some ==> r->Some_0.wf(),
{
    let n = match a.num.checked_mul(b.num) { Some(x) => x, None => return None };
    let d = match a.den.checked_mul(b.den) { Some(x) => x, None => return None };
    proof {
        if a.wf() && b.wf() {
            assert(a.den * b.den > 0) by (nonlinear_arith) requires a.den > 0, b.den > 0;
        }
    }
    Some(Number { num: n, den: d })
}

pub fn div_num(a: Number, b: Number) -> (r: Option<Number>)
    requires
        b.num != 0,
    ensures
        r == spec_div(a, b),
        a.wf() && b.wf() && r is Some ==> r->Some_0.wf(),
{
    let n = match a.num.checked_mul(b.den) { Some(x) => x, None => return None };
    let d = match a.den.checked_mul(b.num) { Some(x) => x, None => return None };
    proof {
        if a.wf() {
            assert(a.den * b.num != 0) by (nonlinear_arith) requires a.den > 0, b.num != 0;
        }
    }
    if d < 0 {
        if n == i128::MIN || d == i128::MIN {
            return None;
        }
        Some(Number { num: -n, den: -d })
    } else {
        Some(Number { num: n, den: d })
    }
}

pub fn neg_num(a: Number) -> (r: Option<Number>)
    ensures
        r == spec_neg(a),
        a.wf() && r is Some ==> r->Some_0.wf(),
{
    if a.num == i128::MIN {
        None
    } else {
        Some(Number { num: -a.num, den: a.den })
    }
}

} // verus!
