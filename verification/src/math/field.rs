//! The scalar field of BLS12-381.
//!
//! A field element is held as four 64-bit limbs, least significant first,
//! of its canonical representative below the modulus.  Its view is that
//! representative as a natural number, and the arithmetic of the field is
//! stated over natural numbers by `fadd`, `fsub`, `fmul` and `fpow`.
//!
//! The arithmetic itself is done by `ark_ff`; the functions that call it say
//! what it computes and are not proved.

use ark_bls12_381::Fr;
use ark_ff::{BigInt, Field, PrimeField, UniformRand};
use vstd::arithmetic::div_mod::{
    lemma_add_mod_noop, lemma_mod_bound, lemma_mul_mod_noop_general, lemma_small_mod,
    lemma_sub_mod_noop,
};
use vstd::prelude::*;

verus! {

/// The order of the field, a prime of 255 bits.
pub closed spec fn modulus() -> nat {
    0x73eda753299d7d483339d80809a1d80553bda402fffe5bfeffffffff00000001nat
}

/// The representative of an integer in the field.
pub open spec fn reduce(x: int) -> nat {
    (x % (modulus() as int)) as nat
}

/// Sum of two field elements.
pub open spec fn fadd(a: nat, b: nat) -> nat {
    reduce(a as int + b as int)
}

/// Difference of two field elements.
pub open spec fn fsub(a: nat, b: nat) -> nat {
    reduce(a - b)
}

/// Product of two field elements.
pub open spec fn fmul(a: nat, b: nat) -> nat {
    reduce(a as int * b as int)
}

/// The additive inverse of a field element.
pub open spec fn fneg(a: nat) -> nat {
    reduce(-(a as int))
}

/// `a` raised to the power `e`.
pub open spec fn fpow(a: nat, e: nat) -> nat
    decreases e,
{
    if e == 0 {
        reduce(1)
    } else {
        fmul(a, fpow(a, (e - 1) as nat))
    }
}

/// The modulus is odd, larger than any 64-bit number, and fits in 255 bits.
pub proof fn lemma_modulus_bounds()
    ensures
        modulus() > 0xffff_ffff_ffff_ffff,
        modulus() < 0x8000_0000_0000_0000_0000_0000_0000_0000_0000_0000_0000_0000_0000_0000_0000_0000nat,
        modulus() % 2 == 1,
{
}

/// The modulus is not zero.
pub proof fn lemma_modulus_positive()
    ensures
        modulus() > 0,
{
}

/// A reduced value lies below the modulus.
pub proof fn lemma_reduce_bound(x: int)
    ensures
        reduce(x) < modulus(),
        reduce(x) as int == x % (modulus() as int),
{
    lemma_modulus_bounds();
    lemma_mod_bound(x, modulus() as int);
}

/// Every reduced value lies below the modulus.
pub proof fn lemma_reduce_bound_all()
    ensures
        forall|x: int| #[trigger] reduce(x) < modulus(),
{
    assert forall|x: int| #[trigger] reduce(x) < modulus() by {
        lemma_reduce_bound(x);
    }
}

/// A value below the modulus is its own representative.
pub proof fn lemma_reduce_small(x: nat)
    requires
        x < modulus(),
    ensures
        reduce(x as int) == x,
{
    lemma_small_mod(x, modulus());
}

/// Reducing a summand first does not change the reduced sum.
pub proof fn lemma_reduce_add(x: int, y: int)
    ensures
        reduce(reduce(x) + y) == reduce(x + y),
        reduce(x + reduce(y)) == reduce(x + y),
        reduce(reduce(x) as int + reduce(y) as int) == reduce(x + y),
{
    lemma_modulus_bounds();
    let m = modulus() as int;
    lemma_reduce_bound(x);
    lemma_reduce_bound(y);
    lemma_add_mod_noop(x, y, m);
    lemma_add_mod_noop(x % m, y, m);
    lemma_add_mod_noop(x, y % m, m);
    lemma_mod_bound(x, m);
    lemma_mod_bound(y, m);
    lemma_small_mod((x % m) as nat, m as nat);
    lemma_small_mod((y % m) as nat, m as nat);
}

/// Reducing the minuend or the subtrahend first does not change the reduced
/// difference.
pub proof fn lemma_reduce_sub(x: int, y: int)
    ensures
        reduce(reduce(x) - y) == reduce(x - y),
        reduce(x - reduce(y)) == reduce(x - y),
        reduce(reduce(x) - reduce(y)) == reduce(x - y),
{
    lemma_modulus_bounds();
    let m = modulus() as int;
    lemma_reduce_bound(x);
    lemma_reduce_bound(y);
    lemma_sub_mod_noop(x, y, m);
    lemma_sub_mod_noop(x % m, y, m);
    lemma_sub_mod_noop(x, y % m, m);
    lemma_mod_bound(x, m);
    lemma_mod_bound(y, m);
    lemma_small_mod((x % m) as nat, m as nat);
    lemma_small_mod((y % m) as nat, m as nat);
}

/// Reducing a factor first does not change the reduced product.
pub proof fn lemma_reduce_mul(x: int, y: int)
    ensures
        reduce(reduce(x) * y) == reduce(x * y),
        reduce(x * reduce(y)) == reduce(x * y),
        reduce(reduce(x) as int * reduce(y) as int) == reduce(x * y),
{
    lemma_modulus_bounds();
    let m = modulus() as int;
    lemma_reduce_bound(x);
    lemma_reduce_bound(y);
    lemma_mul_mod_noop_general(x, y, m);
}


/// Sums, differences and products of the field are canonical representatives.
pub proof fn lemma_field_bounds(a: nat, b: nat)
    ensures
        fadd(a, b) < modulus(),
        fsub(a, b) < modulus(),
        fmul(a, b) < modulus(),
        fneg(a) < modulus(),
{
    lemma_reduce_bound(a as int + b as int);
    lemma_reduce_bound(a as int - b as int);
    lemma_reduce_bound(a as int * b as int);
    lemma_reduce_bound(-(a as int));
}

/// Zero is neutral for addition and subtraction, and absorbs in
/// multiplication.
pub proof fn lemma_field_zero(a: nat)
    ensures
        fmul(a, 0) == 0,
        fmul(0, a) == 0,
        a < modulus() ==> fadd(a, 0) == a && fadd(0, a) == a && fsub(a, 0) == a,
        fsub(a, a) == 0,
{
    lemma_modulus_bounds();
    lemma_reduce_small(0);
    assert(a as int * 0 == 0) by (nonlinear_arith);
    assert(0 * a as int == 0) by (nonlinear_arith);
    if a < modulus() {
        lemma_reduce_small(a);
    }
}

/// One is neutral for multiplication.
pub proof fn lemma_field_one(a: nat)
    requires
        a < modulus(),
    ensures
        fmul(a, 1) == a,
        fmul(1, a) == a,
        reduce(1) == 1,
{
    lemma_modulus_bounds();
    lemma_reduce_small(1);
    lemma_reduce_small(a);
    assert(a as int * 1 == a) by (nonlinear_arith);
    assert(1 * a as int == a) by (nonlinear_arith);
}

/// Multiplication in the field is commutative and associative, and
/// distributes over addition.
pub proof fn lemma_fmul_laws(a: nat, b: nat, c: nat)
    ensures
        fmul(a, b) == fmul(b, a),
        fmul(fmul(a, b), c) == fmul(a, fmul(b, c)),
        fmul(a, fadd(b, c)) == fadd(fmul(a, b), fmul(a, c)),
        fmul(a, fsub(b, c)) == fsub(fmul(a, b), fmul(a, c)),
{
    let ai = a as int;
    let bi = b as int;
    let ci = c as int;
    assert(ai * bi == bi * ai) by (nonlinear_arith);
    assert((ai * bi) * ci == ai * (bi * ci)) by (nonlinear_arith);
    assert(ai * (bi + ci) == ai * bi + ai * ci) by (nonlinear_arith);
    assert(ai * (bi - ci) == ai * bi - ai * ci) by (nonlinear_arith);
    lemma_reduce_mul(ai * bi, ci);
    lemma_reduce_mul(ai, bi * ci);
    lemma_reduce_mul(ai, bi + ci);
    lemma_reduce_mul(ai, bi - ci);
    lemma_reduce_add(ai * bi, ai * ci);
    lemma_reduce_sub(ai * bi, ai * ci);
}

/// Addition in the field is commutative and associative.
pub proof fn lemma_fadd_laws(a: nat, b: nat, c: nat)
    ensures
        fadd(a, b) == fadd(b, a),
        fadd(fadd(a, b), c) == fadd(a, fadd(b, c)),
        fadd(fadd(a, b), c) == fadd(fadd(a, c), b),
{
    lemma_reduce_add(a as int + b as int, c as int);
    lemma_reduce_add(a as int, b as int + c as int);
    lemma_reduce_add(a as int + c as int, b as int);
}

/// Adding a term to one summand and taking it from the other leaves the sum.
pub proof fn lemma_fadd_fsub_cancel(x: nat, u: nat, r: nat)
    ensures
        fadd(fadd(x, u), fsub(r, u)) == fadd(x, r),
{
    lemma_reduce_add(x as int + u as int, r as int - u as int);
}

/// Dividing by an element and multiplying by it again gives back what was
/// divided.
pub proof fn lemma_fmul_inverse_cancel(x: nat, a: nat, a_inv: nat)
    requires
        x < modulus(),
        fmul(a, a_inv) == 1,
    ensures
        fmul(fmul(x, a_inv), a) == x,
{
    lemma_fmul_laws(x, a_inv, a);
    lemma_fmul_laws(a_inv, a, 0);
    lemma_field_one(x);
}

/// The next power of an element is that power times the element.
pub proof fn lemma_fpow_step(w: nat, e: nat)
    ensures
        fpow(w, e + 1) == fmul(fpow(w, e), w),
        fpow(w, e) < modulus(),
{
    lemma_fmul_laws(w, fpow(w, e), 0);
    if e == 0 {
        lemma_modulus_bounds();
        lemma_reduce_bound(1);
    } else {
        lemma_field_bounds(w, fpow(w, (e - 1) as nat));
    }
}

/// A power with a sum for its exponent is the product of the powers.
pub proof fn lemma_fpow_add(w: nat, a: nat, b: nat)
    ensures
        fpow(w, a + b) == fmul(fpow(w, a), fpow(w, b)),
    decreases b,
{
    lemma_fpow_step(w, a);
    if b == 0 {
        lemma_field_one(fpow(w, a));
    } else {
        lemma_fpow_add(w, a, (b - 1) as nat);
        lemma_fpow_step(w, (a + b - 1) as nat);
        lemma_fpow_step(w, (b - 1) as nat);
        lemma_fmul_laws(fpow(w, a), fpow(w, (b - 1) as nat), w);
    }
}

/// The power of a product is the product of the powers.
pub proof fn lemma_fpow_of_product(a: nat, b: nat, e: nat)
    ensures
        fpow(fmul(a, b), e) == fmul(fpow(a, e), fpow(b, e)),
    decreases e,
{
    if e == 0 {
        lemma_modulus_bounds();
        lemma_field_one(1);
    } else {
        let prev = (e - 1) as nat;
        lemma_fpow_of_product(a, b, prev);
        let pa = fpow(a, prev);
        let pb = fpow(b, prev);
        // (a * b) * (pa * pb) == (a * pa) * (b * pb)
        lemma_fmul_laws(fmul(a, b), pa, pb);
        lemma_fmul_laws(a, b, pa);
        lemma_fmul_laws(b, pa, 0);
        lemma_fmul_laws(a, pa, b);
        lemma_fmul_laws(fmul(a, pa), b, pb);
    }
}

/// The powers of an element are canonical representatives.
pub proof fn lemma_fpow_bound(a: nat, e: nat)
    ensures
        fpow(a, e) < modulus(),
{
    lemma_fpow_step(a, e);
}

/// Every power of one is one.
pub proof fn lemma_fpow_of_one(e: nat)
    ensures
        fpow(1, e) == 1,
    decreases e,
{
    lemma_modulus_bounds();
    lemma_field_one(1);
    if e > 0 {
        lemma_fpow_of_one((e - 1) as nat);
    }
}

/// A power of a power is the power with the product of the exponents.
pub proof fn lemma_fpow_of_power(a: nat, x: nat, y: nat)
    ensures
        fpow(fpow(a, x), y) == fpow(a, x * y),
    decreases y,
{
    if y == 0 {
        assert(x * 0 == 0) by (nonlinear_arith);
    } else {
        let prev = (y - 1) as nat;
        lemma_fpow_of_power(a, x, prev);
        assert(x * y == x + x * prev) by (nonlinear_arith)
            requires
                prev == y - 1,
        ;
        lemma_fpow_add(a, x, x * prev);
    }
}

/// Minus one to an even power is one, and to an odd power minus one.
pub proof fn lemma_fpow_of_minus_one(e: nat)
    ensures
        fpow(fneg(1), e) == if e % 2 == 0 {
            1
        } else {
            fneg(1)
        },
    decreases e,
{
    lemma_modulus_bounds();
    lemma_field_one(1);
    lemma_reduce_bound(-1);
    lemma_field_one(fneg(1));
    if e > 0 {
        lemma_fpow_of_minus_one((e - 1) as nat);
        lemma_reduce_mul(-1, -1);
    }
}

/// The character of a decimal digit.
pub open spec fn digit_char(d: nat) -> char {
    if d == 0 {
        '0'
    } else if d == 1 {
        '1'
    } else if d == 2 {
        '2'
    } else if d == 3 {
        '3'
    } else if d == 4 {
        '4'
    } else if d == 5 {
        '5'
    } else if d == 6 {
        '6'
    } else if d == 7 {
        '7'
    } else if d == 8 {
        '8'
    } else {
        '9'
    }
}

/// A number written in decimal, without leading zeros.
pub open spec fn decimal(n: nat) -> Seq<char>
    decreases n,
{
    if n < 10 {
        seq![digit_char(n)]
    } else {
        decimal(n / 10).push(digit_char(n % 10))
    }
}

/// The multiplicative inverse of `a`, where it has one.
pub open spec fn finv(a: nat) -> nat {
    choose|b: nat| b < modulus() && fmul(a, b) == 1
}

/// The inverse of two: half of the modulus, rounded up.
pub open spec fn half() -> nat {
    (modulus() + 1) / 2
}

/// The field element `u` is the representative of the integer `x`.
pub open spec fn represents(u: nat, x: int) -> bool {
    u == reduce(x)
}

/// A canonical element represents its own value.
pub proof fn lemma_rep_self(u: nat)
    requires
        u < modulus(),
    ensures
        represents(u, u as int),
{
    lemma_reduce_small(u);
}

/// The sum of two elements represents the sum of what they represent.
pub proof fn lemma_rep_add(u: nat, x: int, v: nat, y: int)
    requires
        represents(u, x),
        represents(v, y),
    ensures
        represents(fadd(u, v), x + y),
{
    lemma_reduce_add(x, y);
}

/// The difference of two elements represents the difference of what they
/// represent.
pub proof fn lemma_rep_sub(u: nat, x: int, v: nat, y: int)
    requires
        represents(u, x),
        represents(v, y),
    ensures
        represents(fsub(u, v), x - y),
{
    lemma_reduce_sub(x, y);
}

/// The product of two elements represents the product of what they
/// represent.
pub proof fn lemma_rep_mul(u: nat, x: int, v: nat, y: int)
    requires
        represents(u, x),
        represents(v, y),
    ensures
        represents(fmul(u, v), x * y),
{
    lemma_reduce_mul(x, y);
}

/// An element has at most one inverse, so any canonical `b` with
/// `a * b == 1` is the inverse of `a`.
pub proof fn lemma_finv_unique(a: nat, b: nat)
    requires
        b < modulus(),
        fmul(a, b) == 1,
    ensures
        finv(a) == b,
        fmul(a, finv(a)) == 1,
{
    let c = finv(a);
    assert(c < modulus() && fmul(a, c) == 1);
    lemma_fmul_laws(b, a, c);
    lemma_fmul_laws(a, b, 0);
    lemma_field_one(b);
    lemma_field_one(c);
}

/// Twice a half is one.
pub proof fn lemma_half()
    ensures
        half() < modulus(),
        fmul(2, half()) == 1,
        finv(2) == half(),
{
    lemma_modulus_bounds();
    let m = modulus() as int;
    assert(2 * half() == m + 1);
    vstd::arithmetic::div_mod::lemma_mod_add_multiples_vanish(1, m);
    lemma_small_mod(1, modulus());
    lemma_finv_unique(2, half());
}

/// An element of the field: the four limbs of its canonical representative,
/// least significant first.
#[derive(Clone, Copy, Debug, PartialEq, Eq, Structural)]
pub struct Fe {
    pub(crate) l0: u64,
    pub(crate) l1: u64,
    pub(crate) l2: u64,
    pub(crate) l3: u64,
}

impl View for Fe {
    type V = nat;

    /// The number that the limbs spell.
    closed spec fn view(&self) -> nat {
        (self.l0 as nat) + (self.l1 as nat) * 0x1_0000_0000_0000_0000 + (self.l2 as nat)
            * 0x1_0000_0000_0000_0000_0000_0000_0000_0000 + (self.l3 as nat)
            * 0x1_0000_0000_0000_0000_0000_0000_0000_0000_0000_0000_0000_0000
    }
}

/// The values of a sequence of field elements.
pub open spec fn values(s: Seq<Fe>) -> Seq<nat> {
    Seq::new(s.len(), |i: int| s[i]@)
}

/// Every element of the sequence is a canonical representative.
pub open spec fn all_wf(s: Seq<Fe>) -> bool {
    forall|i: int| 0 <= i < s.len() ==> (#[trigger] s[i]).wf()
}

/// A number is split into a multiple of `base` and a rest below `base` in
/// one way only.
proof fn lemma_split_unique(hi_a: int, lo_a: int, hi_b: int, lo_b: int, base: int)
    requires
        base > 0,
        0 <= lo_a < base,
        0 <= lo_b < base,
        hi_a * base + lo_a == hi_b * base + lo_b,
    ensures
        hi_a == hi_b,
        lo_a == lo_b,
{
    let x = hi_a * base + lo_a;
    vstd::arithmetic::div_mod::lemma_fundamental_div_mod_converse(x, base, hi_a, lo_a);
    vstd::arithmetic::div_mod::lemma_fundamental_div_mod_converse(x, base, hi_b, lo_b);
}

/// Two elements with the same value are the same element.
pub proof fn lemma_same_value(a: Fe, b: Fe)
    requires
        a@ == b@,
    ensures
        a == b,
{
    let base: int = 0x1_0000_0000_0000_0000;
    let a1 = a.l1 as int + base * (a.l2 as int + base * (a.l3 as int));
    let b1 = b.l1 as int + base * (b.l2 as int + base * (b.l3 as int));
    assert(a@ == a1 * base + a.l0 as int) by (nonlinear_arith)
        requires
            base == 0x1_0000_0000_0000_0000,
            a1 == a.l1 as int + base * (a.l2 as int + base * (a.l3 as int)),
            a@ == (a.l0 as nat) + (a.l1 as nat) * 0x1_0000_0000_0000_0000 + (a.l2 as nat)
                * 0x1_0000_0000_0000_0000_0000_0000_0000_0000 + (a.l3 as nat)
                * 0x1_0000_0000_0000_0000_0000_0000_0000_0000_0000_0000_0000_0000,
    ;
    assert(b@ == b1 * base + b.l0 as int) by (nonlinear_arith)
        requires
            base == 0x1_0000_0000_0000_0000,
            b1 == b.l1 as int + base * (b.l2 as int + base * (b.l3 as int)),
            b@ == (b.l0 as nat) + (b.l1 as nat) * 0x1_0000_0000_0000_0000 + (b.l2 as nat)
                * 0x1_0000_0000_0000_0000_0000_0000_0000_0000 + (b.l3 as nat)
                * 0x1_0000_0000_0000_0000_0000_0000_0000_0000_0000_0000_0000_0000,
    ;
    lemma_split_unique(a1, a.l0 as int, b1, b.l0 as int, base);
    let a2 = a.l2 as int + base * (a.l3 as int);
    let b2 = b.l2 as int + base * (b.l3 as int);
    assert(a1 == a2 * base + a.l1 as int) by (nonlinear_arith)
        requires
            a1 == a.l1 as int + base * a2,
    ;
    assert(b1 == b2 * base + b.l1 as int) by (nonlinear_arith)
        requires
            b1 == b.l1 as int + base * b2,
    ;
    lemma_split_unique(a2, a.l1 as int, b2, b.l1 as int, base);
    assert(a2 == (a.l3 as int) * base + a.l2 as int) by (nonlinear_arith)
        requires
            a2 == a.l2 as int + base * (a.l3 as int),
    ;
    assert(b2 == (b.l3 as int) * base + b.l2 as int) by (nonlinear_arith)
        requires
            b2 == b.l2 as int + base * (b.l3 as int),
    ;
    lemma_split_unique(a.l3 as int, a.l2 as int, b.l3 as int, b.l2 as int, base);
}

impl Fe {
    /// The limbs spell a number below the modulus.
    pub open spec fn wf(&self) -> bool {
        self@ < modulus()
    }

    /// The additive identity.
    pub fn zero() -> (r: Fe)
        ensures
            r.wf(),
            r@ == 0,
    {
        proof {
            lemma_modulus_bounds();
        }
        Fe { l0: 0, l1: 0, l2: 0, l3: 0 }
    }

    /// The multiplicative identity.
    pub fn one() -> (r: Fe)
        ensures
            r.wf(),
            r@ == 1,
    {
        proof {
            lemma_modulus_bounds();
        }
        Fe { l0: 1, l1: 0, l2: 0, l3: 0 }
    }

    /// The field element that stands for a 64-bit number.
    pub fn from_u64(x: u64) -> (r: Fe)
        ensures
            r.wf(),
            r@ == x,
    {
        proof {
            lemma_modulus_bounds();
        }
        Fe { l0: x, l1: 0, l2: 0, l3: 0 }
    }

    /// Whether this is the additive identity.
    pub fn is_zero(&self) -> (r: bool)
        ensures
            r == (self@ == 0),
    {
        self.l0 == 0 && self.l1 == 0 && self.l2 == 0 && self.l3 == 0
    }

    /// Whether two elements have the same value.
    pub fn equals(&self, other: &Fe) -> (r: bool)
        ensures
            r == (self@ == other@),
            r == (*self == *other),
    {
        proof {
            if self@ == other@ {
                lemma_same_value(*self, *other);
            }
        }
        self.l0 == other.l0 && self.l1 == other.l1 && self.l2 == other.l2 && self.l3 == other.l3
    }

    /// The sum of two elements.
    pub fn add(&self, other: &Fe) -> (r: Fe)
        requires
            self.wf(),
            other.wf(),
        ensures
            r.wf(),
            r@ == fadd(self@, other@),
    {
        field_add(*self, *other)
    }

    /// The difference of two elements.
    pub fn sub(&self, other: &Fe) -> (r: Fe)
        requires
            self.wf(),
            other.wf(),
        ensures
            r.wf(),
            r@ == fsub(self@, other@),
    {
        field_sub(*self, *other)
    }

    /// The product of two elements.
    pub fn mul(&self, other: &Fe) -> (r: Fe)
        requires
            self.wf(),
            other.wf(),
        ensures
            r.wf(),
            r@ == fmul(self@, other@),
    {
        field_mul(*self, *other)
    }

    /// The multiplicative inverse, which every element but zero has.
    pub fn inverse(&self) -> (r: Option<Fe>)
        requires
            self.wf(),
        ensures
            r.is_none() <==> self@ == 0,
            r.is_some() ==> r.unwrap().wf() && fmul(self@, r.unwrap()@) == 1,
    {
        field_inverse(*self)
    }

    /// This element raised to the power `exp`.
    pub fn pow(&self, exp: u64) -> (r: Fe)
        requires
            self.wf(),
        ensures
            r.wf(),
            r@ == fpow(self@, exp as nat),
    {
        field_pow(*self, exp)
    }

    /// The value of the element in decimal.
    pub fn to_decimal(&self) -> (text: String)
        requires
            self.wf(),
        ensures
            text@ == decimal(self@),
    {
        field_to_decimal(*self)
    }

    /// A field element drawn from the thread's random number generator.
    pub fn random() -> (r: Fe)
        ensures
            r.wf(),
    {
        field_random()
    }
}

/// Calls `ark_ff`'s addition of two `Fr` values.  The contract says that the
/// result is the representative of the sum of the two representatives.
#[verifier::external_body]
fn field_add(a: Fe, b: Fe) -> (r: Fe)
    requires
        a.wf(),
        b.wf(),
    ensures
        r.wf(),
        r@ == fadd(a@, b@),
{
    let x = Fr::from(BigInt::new([a.l0, a.l1, a.l2, a.l3]));
    let y = Fr::from(BigInt::new([b.l0, b.l1, b.l2, b.l3]));
    let BigInt([l0, l1, l2, l3]) = (x + y).into_bigint();
    Fe { l0, l1, l2, l3 }
}

/// Calls `ark_ff`'s subtraction of two `Fr` values.  The contract says that
/// the result is the representative of the difference of the two
/// representatives.
#[verifier::external_body]
fn field_sub(a: Fe, b: Fe) -> (r: Fe)
    requires
        a.wf(),
        b.wf(),
    ensures
        r.wf(),
        r@ == fsub(a@, b@),
{
    let x = Fr::from(BigInt::new([a.l0, a.l1, a.l2, a.l3]));
    let y = Fr::from(BigInt::new([b.l0, b.l1, b.l2, b.l3]));
    let BigInt([l0, l1, l2, l3]) = (x - y).into_bigint();
    Fe { l0, l1, l2, l3 }
}

/// Calls `ark_ff`'s multiplication of two `Fr` values.  The contract says
/// that the result is the representative of the product of the two
/// representatives.
#[verifier::external_body]
fn field_mul(a: Fe, b: Fe) -> (r: Fe)
    requires
        a.wf(),
        b.wf(),
    ensures
        r.wf(),
        r@ == fmul(a@, b@),
{
    let x = Fr::from(BigInt::new([a.l0, a.l1, a.l2, a.l3]));
    let y = Fr::from(BigInt::new([b.l0, b.l1, b.l2, b.l3]));
    let BigInt([l0, l1, l2, l3]) = (x * y).into_bigint();
    Fe { l0, l1, l2, l3 }
}

/// Calls `Field::inverse` of `ark_ff` on an `Fr` value.  The contract says
/// that zero has no inverse, and that any other element times the result is
/// one.
#[verifier::external_body]
fn field_inverse(a: Fe) -> (r: Option<Fe>)
    requires
        a.wf(),
    ensures
        r.is_none() <==> a@ == 0,
        r.is_some() ==> r.unwrap().wf() && fmul(a@, r.unwrap()@) == 1,
{
    let x = Fr::from(BigInt::new([a.l0, a.l1, a.l2, a.l3]));
    match x.inverse() {
        Some(y) => {
            let BigInt([l0, l1, l2, l3]) = y.into_bigint();
            Some(Fe { l0, l1, l2, l3 })
        },
        None => None,
    }
}

/// Calls `Field::pow` of `ark_ff` on an `Fr` value with a one-limb exponent.
/// The contract says that the result is the element multiplied by itself
/// `exp` times.
#[verifier::external_body]
fn field_pow(a: Fe, exp: u64) -> (r: Fe)
    requires
        a.wf(),
    ensures
        r.wf(),
        r@ == fpow(a@, exp as nat),
{
    let x = Fr::from(BigInt::new([a.l0, a.l1, a.l2, a.l3]));
    let BigInt([l0, l1, l2, l3]) = x.pow([exp]).into_bigint();
    Fe { l0, l1, l2, l3 }
}

/// Formats an `Fr` value of `ark_ff` with `Display`.  The contract says that
/// the text is the representative written in decimal.
#[verifier::external_body]
fn field_to_decimal(a: Fe) -> (text: String)
    requires
        a.wf(),
    ensures
        text@ == decimal(a@),
{
    format!("{}", Fr::from(BigInt::new([a.l0, a.l1, a.l2, a.l3])))
}

/// Calls `UniformRand::rand` of `ark_ff` for `Fr` with `rand::thread_rng()`.
/// The contract says only that the result is a canonical field element: its
/// value is a matter of chance.
#[verifier::external_body]
fn field_random() -> (r: Fe)
    ensures
        r.wf(),
{
    let BigInt([l0, l1, l2, l3]) = Fr::rand(&mut rand::thread_rng()).into_bigint();
    Fe { l0, l1, l2, l3 }
}

} // verus!
