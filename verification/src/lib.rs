//! A finite field element: a value kept in the canonical range `[0, order)`
//! under modular arithmetic, with addition, subtraction, multiplication,
//! division and exponentiation, all closed over the field.

use vstd::prelude::*;
use vstd::arithmetic::div_mod::{
    lemma_fundamental_div_mod, lemma_mod_bound, lemma_mod_multiples_vanish, lemma_mod_twice,
    lemma_mul_mod_noop_left, lemma_mul_mod_noop_right, lemma_small_mod,
};
use vstd::arithmetic::mul::lemma_mul_is_associative;
use vstd::arithmetic::power::{lemma_pow0, lemma_pow1, lemma_pow_adds, pow};

verus! {

/// Errors raised by validated construction of a [`FieldElement`].
#[derive(Debug, Clone, Copy, PartialEq, Eq, Structural)]
pub enum FieldElementError {
    /// The supplied order is negative.
    NegativeOrderError,
    /// The supplied raw number exceeds the order.
    NumberGreaterThanOrderError,
}

/// An element of a finite field: a representative `number` and the field's
/// modulus `order`. A well-formed element satisfies `0 <= number < order`.
#[derive(Debug, Clone, Copy, PartialEq, Eq, Structural)]
pub struct FieldElement {
    pub number: i64,
    pub order: i64,
}

/// Rust's truncating remainder of `n` by a positive modulus `m`: the result
/// has the sign of `n`, unlike the Euclidean `%` of specifications.
pub open spec fn trunc_rem(n: int, m: int) -> int {
    if n >= 0 {
        n % m
    } else {
        -((-n) % m)
    }
}

impl FieldElement {
    /// The field invariant: the representative lies in `[0, order)`.
    pub open spec fn wf(self) -> bool {
        0 <= self.number < self.order
    }

    /// Validated constructor: rejects a negative order, rejects a raw number
    /// above the order, and otherwise stores the truncating remainder of
    /// `number` by `order`. The raw `number` is compared against `order`
    /// before any reduction, so a negative `number` is accepted and kept as
    /// its (possibly negative) truncating remainder.
    pub fn new(number: i64, order: i64) -> (r: Result<FieldElement, FieldElementError>)
        requires
            order != 0 || number > 0,
        ensures
            order < 0 ==> r == Err::<FieldElement, FieldElementError>(
                FieldElementError::NegativeOrderError,
            ),
            order >= 0 && number > order ==> r == Err::<FieldElement, FieldElementError>(
                FieldElementError::NumberGreaterThanOrderError,
            ),
            order >= 0 && number <= order ==> r == Ok::<FieldElement, FieldElementError>(
                FieldElement { number: trunc_rem(number as int, order as int) as i64, order },
            ),
            order >= 0 && 0 <= number <= order ==> (r matches Ok(f) && f.wf()),
    {
        if order < 0 {
            return Err(FieldElementError::NegativeOrderError);
        } else if number > order {
            return Err(FieldElementError::NumberGreaterThanOrderError);
        }
        let residue: i64 = number % order;
        proof {
            lemma_mod_bound(number as int, order as int);
        }
        Ok(FieldElement { number: residue, order })
    }

    /// The field sum: the residue of `a.number + b.number`.
    pub open spec fn add_spec(a: FieldElement, b: FieldElement) -> FieldElement {
        FieldElement {
            number: ((a.number + b.number) % (a.order as int)) as i64,
            order: a.order,
        }
    }

    /// The field difference: `order` is added before reducing, so the
    /// residue is canonical even when `a.number < b.number`.
    pub open spec fn sub_spec(a: FieldElement, b: FieldElement) -> FieldElement {
        FieldElement {
            number: ((a.number - b.number + a.order) % (a.order as int)) as i64,
            order: a.order,
        }
    }

    /// The field product: the residue of `a.number * b.number`.
    pub open spec fn mul_spec(a: FieldElement, b: FieldElement) -> FieldElement {
        FieldElement {
            number: ((a.number * b.number) % (a.order as int)) as i64,
            order: a.order,
        }
    }

    /// Field addition. Combining elements of different orders is a caller
    /// bug, excluded by precondition rather than recovered from.
    pub fn add(self, rhs: FieldElement) -> (r: FieldElement)
        requires
            self.wf(),
            rhs.wf(),
            self.order == rhs.order,
        ensures
            r == Self::add_spec(self, rhs),
            r.wf(),
    {
        let sum: i128 = self.number as i128 + rhs.number as i128;
        let reduced: i128 = sum % (self.order as i128);
        proof {
            lemma_mod_bound(sum as int, self.order as int);
        }
        FieldElement { number: reduced as i64, order: self.order }
    }

    /// Field subtraction; see [`FieldElement::add`] on mixing orders.
    pub fn sub(self, rhs: FieldElement) -> (r: FieldElement)
        requires
            self.wf(),
            rhs.wf(),
            self.order == rhs.order,
        ensures
            r == Self::sub_spec(self, rhs),
            r.wf(),
    {
        let shifted: i128 = self.number as i128 - rhs.number as i128 + self.order as i128;
        let reduced: i128 = shifted % (self.order as i128);
        proof {
            lemma_mod_bound(shifted as int, self.order as int);
        }
        FieldElement { number: reduced as i64, order: self.order }
    }

    /// Field multiplication; see [`FieldElement::add`] on mixing orders.
    pub fn mul(self, rhs: FieldElement) -> (r: FieldElement)
        requires
            self.wf(),
            rhs.wf(),
            self.order == rhs.order,
        ensures
            r == Self::mul_spec(self, rhs),
            r.wf(),
    {
        proof {
            let a = self.number as int;
            let b = rhs.number as int;
            assert(0 <= a * b <= i64::MAX * i64::MAX) by (nonlinear_arith)
                requires
                    0 <= a <= i64::MAX,
                    0 <= b <= i64::MAX,
            ;
        }
        let product: i128 = self.number as i128 * rhs.number as i128;
        let reduced: i128 = product % (self.order as i128);
        proof {
            lemma_mod_bound(product as int, self.order as int);
        }
        FieldElement { number: reduced as i64, order: self.order }
    }

    /// The exponent the iterative loop actually runs with: a negative
    /// exponent is shifted once by `order - 1` (Fermat's identity makes
    /// this an equivalent positive exponent when the order is prime and
    /// the shifted value lands in `[0, order - 1)`); a shifted value that
    /// is still negative runs the loop zero times, like an exponent of 0.
    pub open spec fn effective_exponent(exp: int, order: int) -> nat {
        let shifted = if exp < 0 { exp + order - 1 } else { exp };
        if shifted > 0 { shifted as nat } else { 0 }
    }

    /// The field power: the residue of `a.number` raised to the effective
    /// exponent.
    pub open spec fn pow_spec(a: FieldElement, exp: int) -> FieldElement {
        FieldElement {
            number: (pow(a.number as int, Self::effective_exponent(exp, a.order as int))
                % (a.order as int)) as i64,
            order: a.order,
        }
    }

    /// Modular exponentiation by repeated multiplication. A negative
    /// exponent is reduced once by `order - 1` (Fermat's Little Theorem);
    /// exponents below `-(order - 1)` are not reduced further, a known
    /// limitation that [`Self::effective_exponent`] states exactly.
    pub fn pow(self, exp: i64) -> (r: FieldElement)
        requires
            self.wf(),
        ensures
            r == Self::pow_spec(self, exp as int),
            r.wf(),
    {
        let mut e: i64 = exp;
        if e < 0 {
            e = self.order - 1 + e;
        }
        let mut acc: i64 = 1;
        let ghost e0: nat = Self::effective_exponent(exp as int, self.order as int);
        proof {
            lemma_pow0(self.number as int);
        }
        while e > 0
            invariant
                self.wf(),
                e0 == Self::effective_exponent(exp as int, self.order as int),
                e > 0 ==> e <= e0,
                acc == 1 || 0 <= acc < self.order,
                (acc as int) % (self.order as int) == pow(
                    self.number as int,
                    (e0 - (if e > 0 { e as int } else { 0 })) as nat,
                ) % (self.order as int),
            decreases e,
        {
            proof {
                let a = acc as int;
                let b = self.number as int;
                let m = self.order as int;
                let k = (e0 - e) as nat;
                assert(0 <= a * b <= i64::MAX * i64::MAX) by (nonlinear_arith)
                    requires
                        0 <= a <= i64::MAX,
                        0 <= b <= i64::MAX,
                ;
                lemma_mul_mod_noop_left(a, b, m);
                lemma_mul_mod_noop_left(pow(b, k), b, m);
                lemma_pow1(b);
                lemma_pow_adds(b, k, 1);
                lemma_mod_twice(a * b, m);
                lemma_mod_bound(a * b, m);
            }
            let product: i128 = acc as i128 * self.number as i128;
            let reduced: i128 = product % (self.order as i128);
            acc = reduced as i64;
            e = e - 1;
        }
        let residue: i64 = acc % self.order;
        proof {
            lemma_mod_bound(acc as int, self.order as int);
        }
        FieldElement { number: residue, order: self.order }
    }

    /// The field quotient: `a` times the multiplicative inverse of `b`,
    /// the inverse being `b` raised to the exponent `-1`.
    pub open spec fn div_spec(a: FieldElement, b: FieldElement) -> FieldElement {
        Self::mul_spec(a, Self::pow_spec(b, -1))
    }

    /// Field division: multiplies by the inverse computed through
    /// [`Self::pow`] with exponent `-1`. Mathematically meaningful only
    /// for a prime order and a nonzero `rhs`, which is the caller's
    /// responsibility; see [`FieldElement::add`] on mixing orders.
    pub fn div(self, rhs: FieldElement) -> (r: FieldElement)
        requires
            self.wf(),
            rhs.wf(),
            self.order == rhs.order,
        ensures
            r == Self::div_spec(self, rhs),
            r.wf(),
    {
        let inverse = rhs.pow(-1);
        self.mul(inverse)
    }
}

/// Additive/subtractive inverse law: for elements of one field,
/// subtracting `b` undoes adding `b`.
pub proof fn lemma_sub_undoes_add(a: FieldElement, b: FieldElement)
    requires
        a.wf(),
        b.wf(),
        a.order == b.order,
    ensures
        FieldElement::sub_spec(FieldElement::add_spec(a, b), b) == a,
{
    let m = a.order as int;
    let x = a.number + b.number;
    lemma_mod_bound(x, m);
    let s = x % m;
    lemma_fundamental_div_mod(x, m);
    assert(m * (1 - x / m) == m - m * (x / m)) by (nonlinear_arith);
    assert(s - b.number + m == m * (1 - x / m) + a.number);
    lemma_mod_multiples_vanish(1 - x / m, a.number as int, m);
    lemma_small_mod(a.number as nat, m as nat);
}

/// Multiplicative identity law: raising to the exponent 1 returns the
/// element itself, and raising to the exponent 0 returns the element
/// `1 mod order`.
pub proof fn lemma_pow_identity(a: FieldElement)
    requires
        a.wf(),
    ensures
        FieldElement::pow_spec(a, 1) == a,
        FieldElement::pow_spec(a, 0) == (FieldElement {
            number: (1int % (a.order as int)) as i64,
            order: a.order,
        }),
{
    let m = a.order as int;
    lemma_pow0(a.number as int);
    lemma_pow1(a.number as int);
    lemma_small_mod(a.number as nat, m as nat);
}

/// Division/multiplication inverse law: multiplying the quotient `a / b`
/// back by `b` returns `a`, for every `b` that satisfies Fermat's identity
/// `b^(order - 1) mod order == 1`. When the order is prime, Fermat's
/// Little Theorem gives that identity for every nonzero `b`, so the law
/// covers exactly the division the field is meant for.
pub proof fn lemma_mul_undoes_div(a: FieldElement, b: FieldElement)
    requires
        a.wf(),
        b.wf(),
        a.order == b.order,
        pow(b.number as int, (b.order - 1) as nat) % (b.order as int) == 1,
    ensures
        FieldElement::mul_spec(FieldElement::div_spec(a, b), b) == a,
{
    let m = a.order as int;
    let an = a.number as int;
    let bn = b.number as int;
    lemma_small_mod(1nat, m as nat);
    assert(m >= 2) by {
        if m == 1 {
            lemma_mod_bound(pow(bn, (m - 1) as nat), m);
        }
    }
    let e = FieldElement::effective_exponent(-1, m);
    assert(e == (m - 2) as nat);
    let p = pow(bn, e);
    let inv = FieldElement::pow_spec(b, -1).number as int;
    assert(inv == p % m);
    lemma_mod_bound(p, m);
    // The inverse element: (an * inv) % m, with the inner residue dropped.
    lemma_mul_mod_noop_right(an, p, m);
    let d = FieldElement::div_spec(a, b).number as int;
    assert(d == (an * p) % m);
    lemma_mod_bound(an * p, m);
    // Multiply back by bn and regroup into a single product.
    lemma_mul_mod_noop_left(an * p, bn, m);
    assert((d * bn) % m == ((an * p) * bn) % m);
    lemma_mul_is_associative(an, p, bn);
    // Fold p * bn into the Fermat exponent.
    lemma_pow1(bn);
    lemma_pow_adds(bn, e, 1nat);
    assert(p * bn == pow(bn, (m - 1) as nat));
    lemma_mul_mod_noop_right(an, pow(bn, (m - 1) as nat), m);
    assert((an * (p * bn)) % m == (an * 1) % m);
    lemma_small_mod(an as nat, m as nat);
}

} // verus!
