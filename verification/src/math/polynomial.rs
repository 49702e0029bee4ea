//! Dense univariate polynomials over the scalar field.
//!
//! A polynomial is its coefficients in ascending order of degree, with no
//! zero at the top.  Its view is the sequence of the coefficients' values;
//! the operations are stated over such sequences by `poly_add`, `poly_mul`
//! and `poly_eval`.

use crate::errors::StarkError;
use crate::math::field::{
    all_wf, decimal, fadd, fmul, fsub, lemma_fadd_fsub_cancel, lemma_fadd_laws, lemma_field_bounds,
    lemma_field_zero, lemma_fmul_inverse_cancel, lemma_modulus_positive, lemma_reduce_small, modulus,
    values, Fe,
};
use vstd::prelude::*;
use vstd::string::StringExecFns;

verus! {

/// The coefficient of `x^i`, which is zero beyond the end of the sequence.
pub open spec fn coeff(p: Seq<nat>, i: int) -> nat {
    if 0 <= i < p.len() {
        p[i]
    } else {
        0
    }
}

/// Every coefficient is a canonical representative.
pub open spec fn is_reduced(p: Seq<nat>) -> bool {
    forall|i: int| 0 <= i < p.len() ==> #[trigger] p[i] < modulus()
}

/// The sequence does not end in a zero.
pub open spec fn is_normal(p: Seq<nat>) -> bool {
    p.len() == 0 || p.last() != 0
}

/// The sequence without its trailing zeros.
pub open spec fn normalize(p: Seq<nat>) -> Seq<nat>
    decreases p.len(),
{
    if p.len() > 0 && p.last() == 0 {
        normalize(p.drop_last())
    } else {
        p
    }
}

/// The degree of a polynomial; that of the zero polynomial is taken as zero.
pub open spec fn degree_of(p: Seq<nat>) -> nat {
    if p.len() == 0 {
        0
    } else {
        (p.len() - 1) as nat
    }
}

/// The value of the polynomial at `x`.
pub open spec fn poly_eval(p: Seq<nat>, x: nat) -> nat
    decreases p.len(),
{
    if p.len() == 0 {
        0
    } else {
        fadd(fmul(poly_eval(p.skip(1), x), x), p[0])
    }
}

/// The coefficient-wise sum of two sequences, as long as the longer one.
pub open spec fn raw_add(a: Seq<nat>, b: Seq<nat>) -> Seq<nat> {
    Seq::new(
        if a.len() >= b.len() {
            a.len()
        } else {
            b.len()
        },
        |i: int| fadd(coeff(a, i), coeff(b, i)),
    )
}

/// The sum of two polynomials.
pub open spec fn poly_add(a: Seq<nat>, b: Seq<nat>) -> Seq<nat> {
    normalize(raw_add(a, b))
}

/// The sum of `a[i] * b[k - i]` over the first `n` indices `i`.
pub open spec fn conv(a: Seq<nat>, b: Seq<nat>, k: int, n: nat) -> nat
    decreases n,
{
    if n == 0 {
        0
    } else {
        fadd(conv(a, b, k, (n - 1) as nat), fmul(coeff(a, n - 1), coeff(b, k - (n - 1))))
    }
}

/// The coefficients of the product before trailing zeros are stripped.
pub open spec fn raw_mul(a: Seq<nat>, b: Seq<nat>) -> Seq<nat> {
    Seq::new(
        if a.len() == 0 || b.len() == 0 {
            0
        } else {
            (a.len() + b.len() - 1) as nat
        },
        |k: int| conv(a, b, k, a.len()),
    )
}

/// The product of two polynomials.
pub open spec fn poly_mul(a: Seq<nat>, b: Seq<nat>) -> Seq<nat> {
    normalize(raw_mul(a, b))
}

/// How the term `c * x^i` is written.
pub open spec fn term_text(c: nat, i: nat) -> Seq<char> {
    if i == 0 {
        decimal(c)
    } else if i == 1 {
        decimal(c) + seq!['x']
    } else {
        decimal(c) + seq!['x', '^'] + decimal(i)
    }
}

/// Whether one of the first `n` coefficients is not zero.
pub open spec fn has_term(p: Seq<nat>, n: nat) -> bool {
    exists|i: int| 0 <= i < n && i < p.len() && p[i] != 0
}

/// The terms of the first `n` coefficients that are not zero, in ascending
/// order of degree, joined by `" + "`.
pub open spec fn terms_text(p: Seq<nat>, n: nat) -> Seq<char>
    decreases n,
{
    if n == 0 {
        Seq::empty()
    } else {
        let before = terms_text(p, (n - 1) as nat);
        if coeff(p, n - 1) == 0 {
            before
        } else if has_term(p, (n - 1) as nat) {
            before + seq![' ', '+', ' '] + term_text(p[n - 1], (n - 1) as nat)
        } else {
            term_text(p[n - 1], (n - 1) as nat)
        }
    }
}

/// How a polynomial is written: its non-zero terms in ascending order of
/// degree, and `0` for the zero polynomial.
pub open spec fn poly_text(p: Seq<nat>) -> Seq<char> {
    if has_term(p, p.len()) {
        terms_text(p, p.len())
    } else {
        seq!['0']
    }
}

/// `quotient` and `remainder` are a division of `p` by `divisor`: both are
/// polynomials, the remainder has fewer coefficients than the divisor, and
/// `quotient * divisor + remainder` is `p`.
pub open spec fn is_division(
    p: Seq<nat>,
    divisor: Seq<nat>,
    quotient: Seq<nat>,
    remainder: Seq<nat>,
) -> bool {
    &&& is_reduced(quotient)
    &&& is_normal(quotient)
    &&& is_reduced(remainder)
    &&& is_normal(remainder)
    &&& remainder.len() < divisor.len()
    &&& poly_add(poly_mul(quotient, divisor), remainder) == p
}

/// `p` is a multiple of `divisor`: a division of `p` by `divisor` leaves no
/// remainder.
pub open spec fn divides(divisor: Seq<nat>, p: Seq<nat>) -> bool {
    exists|quotient: Seq<nat>| #[trigger] is_division(p, divisor, quotient, Seq::empty())
}

/// Stripping trailing zeros leaves a sequence that does not end in zero, no
/// longer than the one given, with the same coefficients.
pub proof fn lemma_normalize(p: Seq<nat>)
    ensures
        is_normal(normalize(p)),
        normalize(p).len() <= p.len(),
        normalize(p) == p.subrange(0, normalize(p).len() as int),
        forall|i: int| normalize(p).len() <= i < p.len() ==> p[i] == 0,
        forall|i: int| coeff(normalize(p), i) == coeff(p, i),
        is_normal(p) ==> normalize(p) == p,
        is_reduced(p) ==> is_reduced(normalize(p)),
    decreases p.len(),
{
    if p.len() > 0 && p.last() == 0 {
        let q = p.drop_last();
        lemma_normalize(q);
        assert(normalize(p) == q.subrange(0, normalize(p).len() as int));
        assert(q.subrange(0, normalize(p).len() as int) == p.subrange(
            0,
            normalize(p).len() as int,
        ));
        assert forall|i: int| normalize(p).len() <= i < p.len() implies p[i] == 0 by {
            if i < q.len() {
                assert(q[i] == 0);
            }
        }
        assert forall|i: int| coeff(normalize(p), i) == coeff(p, i) by {
            assert(coeff(normalize(q), i) == coeff(q, i));
        }
    } else {
        assert(p == p.subrange(0, p.len() as int));
    }
}

/// Two sequences without trailing zeros that have the same coefficients are
/// the same sequence.
pub proof fn lemma_normal_unique(p: Seq<nat>, q: Seq<nat>)
    requires
        is_normal(p),
        is_normal(q),
        forall|i: int| coeff(p, i) == coeff(q, i),
    ensures
        p == q,
{
    if p.len() < q.len() {
        assert(coeff(p, q.len() - 1) == coeff(q, q.len() - 1));
    }
    if q.len() < p.len() {
        assert(coeff(p, p.len() - 1) == coeff(q, p.len() - 1));
    }
    assert forall|i: int| 0 <= i < p.len() implies p[i] == q[i] by {
        assert(coeff(p, i) == coeff(q, i));
    }
    assert(p =~= q);
}

/// Trailing zeros do not change what a sequence is stripped to: a
/// polynomial made from coefficients followed by two zeros is the polynomial
/// made from the coefficients alone.
pub proof fn lemma_trailing_zeros_stripped(p: Seq<nat>)
    ensures
        normalize(p.push(0).push(0)) == normalize(p),
        normalize(p.push(0)) == normalize(p),
{
    let once = p.push(0);
    let twice = once.push(0);
    assert(once.drop_last() == p);
    assert(twice.drop_last() == once);
    assert(normalize(once) == normalize(once.drop_last()));
    assert(normalize(twice) == normalize(twice.drop_last()));
}


/// Horner's rule, one step: the value of the coefficients from `i` on is
/// the value of those from `i + 1` on, times `x`, plus the coefficient at `i`.
pub proof fn lemma_poly_eval_step(p: Seq<nat>, i: int, x: nat)
    requires
        0 <= i < p.len(),
    ensures
        poly_eval(p.subrange(i, p.len() as int), x) == fadd(
            fmul(poly_eval(p.subrange(i + 1, p.len() as int), x), x),
            p[i],
        ),
{
    let s = p.subrange(i, p.len() as int);
    assert(s.skip(1) == p.subrange(i + 1, p.len() as int));
}

/// The value of a polynomial is a canonical representative.
pub proof fn lemma_poly_eval_bound(p: Seq<nat>, x: nat)
    ensures
        poly_eval(p, x) < modulus(),
    decreases p.len(),
{
    if p.len() == 0 {
        lemma_modulus_positive();
    } else {
        lemma_field_bounds(fmul(poly_eval(p.skip(1), x), x), p[0]);
    }
}

/// A partial sum of products is a canonical representative.
pub proof fn lemma_conv_bound(a: Seq<nat>, b: Seq<nat>, k: int, n: nat)
    ensures
        conv(a, b, k, n) < modulus(),
{
    if n == 0 {
        lemma_modulus_positive();
    } else {
        lemma_field_bounds(
            conv(a, b, k, (n - 1) as nat),
            fmul(coeff(a, n - 1), coeff(b, k - (n - 1))),
        );
    }
}

/// A term with a zero factor adds nothing to the sum of products.
pub proof fn lemma_conv_zero_term(a: Seq<nat>, b: Seq<nat>, k: int, n: nat)
    requires
        coeff(a, n as int) == 0 || coeff(b, k - n) == 0,
    ensures
        conv(a, b, k, n + 1) == conv(a, b, k, n),
{
    lemma_conv_bound(a, b, k, n);
    lemma_field_zero(coeff(a, n as int));
    lemma_field_zero(coeff(b, k - n));
    lemma_field_zero(conv(a, b, k, n));
}

/// The coefficients of a sum are the sums of the coefficients.
pub proof fn lemma_coeff_poly_add(a: Seq<nat>, b: Seq<nat>, k: int)
    ensures
        coeff(poly_add(a, b), k) == fadd(coeff(a, k), coeff(b, k)),
{
    let r = raw_add(a, b);
    lemma_normalize(r);
    lemma_field_zero(0);
    assert(coeff(normalize(r), k) == coeff(r, k));
    if 0 <= k < r.len() {
        assert(r[k] == fadd(coeff(a, k), coeff(b, k)));
    }
}

/// A sum of products whose every term has a zero factor is zero.
pub proof fn lemma_conv_all_zero(a: Seq<nat>, b: Seq<nat>, k: int, n: nat)
    requires
        forall|i: int| 0 <= i < n ==> coeff(a, i) == 0 || coeff(b, k - i) == 0,
    ensures
        conv(a, b, k, n) == 0,
    decreases n,
{
    if n > 0 {
        lemma_conv_all_zero(a, b, k, (n - 1) as nat);
        lemma_conv_zero_term(a, b, k, (n - 1) as nat);
    }
}

/// Terms with a zero factor can be left off the end of a sum of products.
pub proof fn lemma_conv_extend(a: Seq<nat>, b: Seq<nat>, k: int, n1: nat, n2: nat)
    requires
        n1 <= n2,
        forall|i: int| n1 <= i < n2 ==> coeff(a, i) == 0 || coeff(b, k - i) == 0,
    ensures
        conv(a, b, k, n2) == conv(a, b, k, n1),
    decreases n2 - n1,
{
    if n1 < n2 {
        lemma_conv_extend(a, b, k, n1, (n2 - 1) as nat);
        lemma_conv_zero_term(a, b, k, (n2 - 1) as nat);
    }
}

/// A sum of products depends on its first sequence only through the
/// coefficients that it reads.
pub proof fn lemma_conv_congruence(a1: Seq<nat>, a2: Seq<nat>, b: Seq<nat>, k: int, n: nat)
    requires
        forall|i: int| 0 <= i < n ==> coeff(a1, i) == coeff(a2, i),
    ensures
        conv(a1, b, k, n) == conv(a2, b, k, n),
    decreases n,
{
    if n > 0 {
        lemma_conv_congruence(a1, a2, b, k, (n - 1) as nat);
    }
}

/// Setting a zero coefficient of the first sequence to `c`, at index `i`,
/// adds `c` times the matching coefficient of the second to the sum.
pub proof fn lemma_conv_update(
    a1: Seq<nat>,
    a2: Seq<nat>,
    b: Seq<nat>,
    k: int,
    n: nat,
    i: int,
    c: nat,
)
    requires
        0 <= i,
        coeff(a1, i) == 0,
        coeff(a2, i) == c,
        forall|j: int| 0 <= j < n && j != i ==> coeff(a1, j) == coeff(a2, j),
    ensures
        conv(a2, b, k, n) == if i < n {
            fadd(conv(a1, b, k, n), fmul(c, coeff(b, k - i)))
        } else {
            conv(a1, b, k, n)
        },
    decreases n,
{
    if n <= i {
        lemma_conv_congruence(a1, a2, b, k, n);
    } else {
        let prev = (n - 1) as nat;
        lemma_conv_update(a1, a2, b, k, prev, i, c);
        if prev == i {
            lemma_conv_zero_term(a1, b, k, prev);
        } else {
            let t = fmul(coeff(a1, prev as int), coeff(b, k - prev));
            lemma_fadd_laws(conv(a1, b, k, prev), fmul(c, coeff(b, k - i)), t);
        }
    }
}

/// The coefficients of a product are the sums of products of the
/// coefficients of its factors.
pub proof fn lemma_coeff_poly_mul(a: Seq<nat>, b: Seq<nat>, k: int)
    ensures
        coeff(poly_mul(a, b), k) == conv(a, b, k, a.len()),
{
    let r = raw_mul(a, b);
    lemma_normalize(r);
    assert(coeff(normalize(r), k) == coeff(r, k));
    if 0 <= k < r.len() {
        assert(r[k] == conv(a, b, k, a.len()));
    } else {
        lemma_conv_all_zero(a, b, k, a.len());
    }
}

/// A sequence that is zero from index `d` on is stripped to at most `d`
/// coefficients.
pub proof fn lemma_normalize_len(p: Seq<nat>, d: nat)
    requires
        forall|i: int| d <= i < p.len() ==> p[i] == 0,
    ensures
        normalize(p).len() <= d,
    decreases p.len(),
{
    if p.len() > d {
        lemma_normalize_len(p.drop_last(), d);
    } else {
        lemma_normalize(p);
    }
}

/// What long division leaves behind: if every coefficient of `p` is the
/// matching coefficient of `quotient * divisor` plus that of `remainder`, then
/// the polynomial with the coefficients `p` is the product plus the
/// remainder.
pub proof fn lemma_division_identity(
    p: Seq<nat>,
    divisor: Seq<nat>,
    quotient: Seq<nat>,
    remainder: Seq<nat>,
)
    requires
        divisor.len() >= 1,
        quotient.len() + divisor.len() - 1 == p.len(),
        remainder.len() == p.len(),
        forall|k: int|
            0 <= k < p.len() ==> p[k] == fadd(
                conv(quotient, divisor, k, quotient.len()),
                #[trigger] remainder[k],
            ),
    ensures
        poly_add(poly_mul(normalize(quotient), divisor), normalize(remainder)) == normalize(p),
{
    let q = normalize(quotient);
    let r = normalize(remainder);
    let lhs = poly_add(poly_mul(q, divisor), r);
    lemma_normalize(quotient);
    lemma_normalize(remainder);
    lemma_normalize(raw_add(poly_mul(q, divisor), r));
    lemma_normalize(p);
    assert forall|k: int| coeff(lhs, k) == coeff(normalize(p), k) by {
        lemma_coeff_poly_add(poly_mul(q, divisor), r, k);
        lemma_coeff_poly_mul(q, divisor, k);
        lemma_conv_congruence(q, quotient, divisor, k, q.len());
        lemma_conv_extend(quotient, divisor, k, q.len(), quotient.len());
        assert(coeff(r, k) == coeff(remainder, k));
        if !(0 <= k < p.len()) {
            lemma_conv_all_zero(quotient, divisor, k, quotient.len());
            lemma_field_zero(0);
        }
    }
    lemma_normal_unique(lhs, normalize(p));
}


/// The values of canonical field elements are canonical.
pub proof fn lemma_values_reduced(s: Seq<Fe>)
    requires
        all_wf(s),
    ensures
        is_reduced(values(s)),
{
    assert forall|i: int| 0 <= i < values(s).len() implies #[trigger] values(s)[i]
        < modulus() by {
        assert(s[i].wf());
    }
}

/// Adding the zero polynomial changes nothing.
pub proof fn lemma_poly_add_zero(p: Seq<nat>)
    requires
        is_reduced(p),
        is_normal(p),
    ensures
        poly_add(Seq::empty(), p) == p,
        poly_add(p, Seq::empty()) == p,
        poly_mul(Seq::empty(), p) == Seq::<nat>::empty(),
{
    let none = Seq::<nat>::empty();
    assert forall|k: int| coeff(poly_add(none, p), k) == coeff(p, k) && coeff(
        poly_add(p, none),
        k,
    ) == coeff(p, k) by {
        lemma_coeff_poly_add(none, p, k);
        lemma_coeff_poly_add(p, none, k);
        lemma_field_zero(coeff(p, k));
        lemma_modulus_positive();
    }
    lemma_normalize(raw_add(none, p));
    lemma_normalize(raw_add(p, none));
    lemma_normal_unique(poly_add(none, p), p);
    lemma_normal_unique(poly_add(p, none), p);
    lemma_normalize(raw_mul(none, p));
}

/// Division by a polynomial with leading coefficient one leaves a
/// polynomial with fewer coefficients than the divisor as it is: the quotient
/// is zero and the remainder is the polynomial itself.
pub proof fn lemma_division_of_shorter(
    p: Seq<nat>,
    divisor: Seq<nat>,
    quotient: Seq<nat>,
    remainder: Seq<nat>,
)
    requires
        is_division(p, divisor, quotient, remainder),
        divisor.len() >= 1,
        divisor.last() == 1,
        p.len() < divisor.len(),
    ensures
        quotient.len() == 0,
        remainder == p,
{
    if quotient.len() > 0 {
        let top = (quotient.len() - 1) as nat;
        let at = top + divisor.len() - 1;
        let product = poly_mul(quotient, divisor);
        lemma_coeff_poly_add(product, remainder, at);
        lemma_coeff_poly_mul(quotient, divisor, at);
        lemma_conv_all_zero(quotient, divisor, at, top);
        lemma_modulus_positive();
        if modulus() == 1 {
            assert(quotient[top as int] < 1);
        }
        lemma_field_zero(quotient[top as int]);
        lemma_field_zero(0);
        assert(fmul(quotient[top as int], 1) == quotient[top as int]) by {
            lemma_reduce_small(quotient[top as int]);
            assert(quotient[top as int] as int * 1 == quotient[top as int] as int)
                by (nonlinear_arith);
        }
        assert(conv(quotient, divisor, at, quotient.len()) == quotient[top as int]);
        assert(coeff(p, at) == 0);
        assert(false);
    }
    assert(quotient =~= Seq::<nat>::empty());
    lemma_poly_add_zero(remainder);
    lemma_normalize(raw_mul(quotient, divisor));
    assert(poly_mul(quotient, divisor) =~= Seq::<nat>::empty());
}

/// A polynomial with coefficients in the scalar field.
#[derive(Debug)]
pub struct Polynomial {
    /// The coefficients in ascending order of degree, without trailing zeros.
    pub coefficients: Vec<Fe>,
}

impl View for Polynomial {
    type V = Seq<nat>;

    open spec fn view(&self) -> Seq<nat> {
        values(self.coefficients@)
    }
}

impl Clone for Polynomial {
    fn clone(&self) -> (r: Self)
        ensures
            r.coefficients@ == self.coefficients@,
    {
        let mut coefficients: Vec<Fe> = Vec::new();
        let mut i: usize = 0;
        while i < self.coefficients.len()
            invariant
                i <= self.coefficients.len(),
                coefficients@ == self.coefficients@.subrange(0, i as int),
            decreases self.coefficients.len() - i,
        {
            coefficients.push(self.coefficients[i]);
            i += 1;
            assert(coefficients@ == self.coefficients@.subrange(0, i as int));
        }
        assert(coefficients@ == self.coefficients@);
        Polynomial { coefficients }
    }
}

impl Polynomial {
    /// The coefficients are canonical field elements.
    pub open spec fn reduced(&self) -> bool {
        all_wf(self.coefficients@)
    }

    /// The coefficients are canonical and the last of them is not zero.
    pub open spec fn wf(&self) -> bool {
        &&& self.reduced()
        &&& is_normal(self@)
    }

    /// The polynomial with the given coefficients, without their trailing
    /// zeros.
    pub fn new(coefficients: Vec<Fe>) -> (r: Self)
        requires
            all_wf(coefficients@),
        ensures
            r.wf(),
            r@ == normalize(values(coefficients@)),
    {
        let mut coefficients = coefficients;
        let ghost given = values(coefficients@);
        while coefficients.len() > 0 && coefficients[coefficients.len() - 1].is_zero()
            invariant
                all_wf(coefficients@),
                normalize(values(coefficients@)) == normalize(given),
            decreases coefficients.len(),
        {
            proof {
                assert(values(coefficients@).drop_last() == values(coefficients@.drop_last()));
            }
            coefficients.pop();
        }
        Polynomial { coefficients }
    }

    /// The highest power of `x` with a non-zero coefficient, and zero for the
    /// zero polynomial.
    pub fn degree(&self) -> (d: usize)
        ensures
            d == degree_of(self@),
    {
        if self.coefficients.len() == 0 {
            0
        } else {
            self.coefficients.len() - 1
        }
    }

    /// The coefficient of the highest power, and zero for the zero polynomial.
    pub fn leading_coefficient(&self) -> (c: Fe)
        requires
            self.reduced(),
        ensures
            c.wf(),
            c@ == coeff(self@, self@.len() - 1),
    {
        if self.coefficients.len() == 0 {
            Fe::zero()
        } else {
            self.coefficients[self.coefficients.len() - 1]
        }
    }

    /// Whether every coefficient is zero.
    pub fn is_zero(&self) -> (z: bool)
        ensures
            z == (forall|i: int| 0 <= i < self@.len() ==> self@[i] == 0),
            self.wf() ==> z == (self@.len() == 0),
    {
        let mut i: usize = 0;
        while i < self.coefficients.len()
            invariant
                i <= self.coefficients.len(),
                forall|j: int| 0 <= j < i ==> self@[j] == 0,
            decreases self.coefficients.len() - i,
        {
            if !self.coefficients[i].is_zero() {
                assert(self@[i as int] != 0);
                return false;
            }
            i += 1;
        }
        true
    }

    /// The zero polynomial.
    pub fn zero() -> (r: Self)
        ensures
            r.wf(),
            r@ == Seq::<nat>::empty(),
    {
        let mut coefficients: Vec<Fe> = Vec::new();
        coefficients.push(Fe::zero());
        proof {
            let s = values(coefficients@);
            assert(s.drop_last() =~= Seq::<nat>::empty());
            assert(normalize(s) == normalize(s.drop_last()));
        }
        Polynomial::new(coefficients)
    }

    /// The polynomial with the given dense coefficient vector.
    pub fn from_dense_poly(coefficients: Vec<Fe>) -> (r: Self)
        requires
            all_wf(coefficients@),
        ensures
            r.wf(),
            r@ == normalize(values(coefficients@)),
    {
        Polynomial::new(coefficients)
    }

    /// The value of the polynomial at `x`, by Horner's rule.
    pub fn evaluate(&self, x: Fe) -> (r: Fe)
        requires
            self.reduced(),
            x.wf(),
        ensures
            r.wf(),
            r@ == poly_eval(self@, x@),
    {
        let n = self.coefficients.len();
        if n == 0 {
            return Fe::zero();
        }
        let mut result = self.coefficients[n - 1];
        let mut i: usize = n - 1;
        proof {
            let p = self@;
            lemma_poly_eval_step(p, n - 1, x@);
            assert(p.subrange(n as int, n as int) =~= Seq::<nat>::empty());
            lemma_field_zero(x@);
            lemma_field_zero(p[n - 1]);
        }
        while i > 0
            invariant
                i < n,
                n == self.coefficients.len(),
                self.reduced(),
                x.wf(),
                result.wf(),
                result@ == poly_eval(self@.subrange(i as int, n as int), x@),
            decreases i,
        {
            i -= 1;
            proof {
                lemma_poly_eval_step(self@, i as int, x@);
            }
            result = result.mul(&x).add(&self.coefficients[i]);
        }
        assert(self@.subrange(0, n as int) == self@);
        result
    }

    /// The sum of two polynomials, coefficient by coefficient.
    pub fn add(&self, other: &Polynomial) -> (r: Polynomial)
        requires
            self.reduced(),
            other.reduced(),
        ensures
            r.wf(),
            r@ == poly_add(self@, other@),
    {
        let max_len = if self.coefficients.len() >= other.coefficients.len() {
            self.coefficients.len()
        } else {
            other.coefficients.len()
        };
        let mut result: Vec<Fe> = Vec::new();
        let mut i: usize = 0;
        while i < max_len
            invariant
                i <= max_len,
                max_len == raw_add(self@, other@).len(),
                self.reduced(),
                other.reduced(),
                result.len() == i,
                all_wf(result@),
                forall|k: int| 0 <= k < i ==> (#[trigger] result[k])@ == raw_add(self@, other@)[k],
            decreases max_len - i,
        {
            let a = if i < self.coefficients.len() {
                self.coefficients[i]
            } else {
                Fe::zero()
            };
            let b = if i < other.coefficients.len() {
                other.coefficients[i]
            } else {
                Fe::zero()
            };
            result.push(a.add(&b));
            i += 1;
        }
        assert(values(result@) =~= raw_add(self@, other@));
        Polynomial::new(result)
    }

    /// The product of two polynomials, by the schoolbook method.
    pub fn multiply(&self, other: &Polynomial) -> (r: Polynomial)
        requires
            self.reduced(),
            other.reduced(),
        ensures
            r.wf(),
            r@ == poly_mul(self@, other@),
    {
        if self.coefficients.len() == 0 || other.coefficients.len() == 0 {
            let r = Polynomial::new(Vec::new());
            assert(values(Seq::<Fe>::empty()) =~= raw_mul(self@, other@));
            return r;
        }
        let n = self.coefficients.len();
        let m = other.coefficients.len();
        // One zero for each coefficient of the product: as many as `other`
        // has, and one more for each coefficient of `self` but the first.
        let mut result: Vec<Fe> = Vec::new();
        let mut z: usize = 0;
        while z < m
            invariant
                z <= m,
                result.len() == z,
                forall|k: int| 0 <= k < result.len() ==> (#[trigger] result[k])@ == 0,
            decreases m - z,
        {
            result.push(Fe::zero());
            z += 1;
        }
        let mut z: usize = 1;
        while z < n
            invariant
                1 <= z <= n,
                result.len() == m + z - 1,
                forall|k: int| 0 <= k < result.len() ==> (#[trigger] result[k])@ == 0,
            decreases n - z,
        {
            result.push(Fe::zero());
            z += 1;
        }
        let len = result.len();
        let mut i: usize = 0;
        while i < n
            invariant
                i <= n,
                n == self.coefficients.len(),
                m == other.coefficients.len(),
                m > 0,
                len == n + m - 1,
                self.reduced(),
                other.reduced(),
                result.len() == len,
                forall|k: int|
                    0 <= k < len ==> (#[trigger] result[k])@ == conv(self@, other@, k, i as nat),
            decreases n - i,
        {
            let mut j: usize = 0;
            while j < m
                invariant
                    i < n,
                    j <= m,
                    n == self.coefficients.len(),
                    m == other.coefficients.len(),
                    len == n + m - 1,
                    self.reduced(),
                    other.reduced(),
                    result.len() == len,
                    forall|k: int|
                        0 <= k < len ==> (#[trigger] result[k])@ == (if i <= k < i + j {
                            conv(self@, other@, k, (i + 1) as nat)
                        } else {
                            conv(self@, other@, k, i as nat)
                        }),
                decreases m - j,
            {
                proof {
                    lemma_conv_bound(self@, other@, (i + j) as int, i as nat);
                }
                let term = self.coefficients[i].mul(&other.coefficients[j]);
                let sum = result[i + j].add(&term);
                result.set(i + j, sum);
                j += 1;
            }
            proof {
                assert forall|k: int| 0 <= k < len implies (#[trigger] result[k])@ == conv(
                    self@,
                    other@,
                    k,
                    (i + 1) as nat,
                ) by {
                    if !(i <= k < i + m) {
                        lemma_conv_zero_term(self@, other@, k, i as nat);
                    }
                }
            }
            i += 1;
        }
        proof {
            assert forall|k: int| 0 <= k < len implies (#[trigger] result[k]).wf() by {
                lemma_conv_bound(self@, other@, k, n as nat);
            }
            assert(values(result@) =~= raw_mul(self@, other@));
        }
        Polynomial::new(result)
    }

    /// The polynomial written out: its non-zero terms in ascending order of
    /// degree, joined by `" + "`, and `0` for the zero polynomial.
    pub fn to_string(&self) -> (text: String)
        requires
            self.reduced(),
        ensures
            text@ == poly_text(self@),
    {
        proof {
            reveal_strlit("0");
            reveal_strlit(" + ");
            reveal_strlit("x");
            reveal_strlit("x^");
        }
        let mut text = String::new();
        let mut any = false;
        let mut i: usize = 0;
        while i < self.coefficients.len()
            invariant
                i <= self.coefficients.len(),
                self.reduced(),
                any == has_term(self@, i as nat),
                text@ == terms_text(self@, i as nat),
                "0"@ == seq!['0'],
                " + "@ == seq![' ', '+', ' '],
                "x"@ == seq!['x'],
                "x^"@ == seq!['x', '^'],
            decreases self.coefficients.len() - i,
        {
            let c = self.coefficients[i];
            if !c.is_zero() {
                if any {
                    text.append(" + ");
                }
                let ghost start = text@;
                text.append(c.to_decimal().as_str());
                if i == 1 {
                    text.append("x");
                } else if i > 1 {
                    text.append("x^");
                    text.append(index_to_decimal(i).as_str());
                }
                proof {
                    assert(text@ =~= start + term_text(self@[i as int], i as nat));
                    if any {
                        assert(text@ =~= terms_text(self@, i as nat) + seq![' ', '+', ' ']
                            + term_text(self@[i as int], i as nat));
                    } else {
                        assert(terms_text(self@, i as nat).len() == 0) by {
                            lemma_no_terms(self@, i as nat);
                        }
                    }
                    assert(has_term(self@, (i + 1) as nat));
                }
                any = true;
            } else {
                proof {
                    if has_term(self@, (i + 1) as nat) {
                        let j = choose|j: int| 0 <= j < i + 1 && j < self@.len() && self@[j] != 0;
                        assert(j < i);
                    }
                }
            }
            i += 1;
        }
        if !any {
            return String::from_str("0");
        }
        text
    }

    /// Long division: the quotient and the remainder of this polynomial by
    /// `divisor`.
    ///
    /// The quotient times the divisor plus the remainder is this polynomial,
    /// and the remainder has fewer coefficients than the divisor.  A dividend
    /// with fewer coefficients than the divisor is its own remainder, with a
    /// zero quotient.  Division by the zero polynomial is refused, and so is
    /// division by coefficients that end in a zero.
    pub fn divide(&self, divisor: &Polynomial) -> (r: Result<(Polynomial, Polynomial), StarkError>)
        requires
            self.reduced(),
            divisor.reduced(),
        ensures
            r.is_err() <==> divisor@.len() == 0 || divisor@.last() == 0,
            r.is_err() ==> r == Err::<(Polynomial, Polynomial), StarkError>(StarkError::DivideByZero),
            r.is_ok() ==> {
                let (quotient, remainder) = r.unwrap();
                &&& quotient.wf()
                &&& remainder.wf()
                &&& is_division(normalize(self@), divisor@, quotient@, remainder@)
                &&& self@.len() < divisor@.len() ==> quotient@.len() == 0 && remainder@
                    == normalize(self@)
                &&& degree_of(divisor@) > 0 ==> degree_of(remainder@) < degree_of(divisor@)
            },
    {
        let ld = divisor.coefficients.len();
        if ld == 0 {
            return Err(StarkError::DivideByZero);
        }
        let lead = divisor.leading_coefficient();
        let lead_inv = match lead.inverse() {
            Some(v) => v,
            None => {
                return Err(StarkError::DivideByZero);
            },
        };
        let lp = self.coefficients.len();
        if lp < ld {
            let quotient = Polynomial::zero();
            let remainder = Polynomial::new(self.clone().coefficients);
            proof {
                lemma_normalize(self@);
                lemma_values_reduced(remainder.coefficients@);
                lemma_values_reduced(quotient.coefficients@);
                lemma_normalize(raw_mul(quotient@, divisor@));
                assert(poly_mul(quotient@, divisor@) =~= Seq::<nat>::empty());
                lemma_poly_add_zero(remainder@);
            }
            return Ok((quotient, remainder));
        }
        let d = ld - 1;
        let m = lp - ld + 1;
        let mut quotient = zeros(m);
        let mut remainder = self.clone().coefficients;
        proof {
            assert(values(remainder@) =~= self@);
            assert forall|k: int| 0 <= k < lp implies self@[k] == fadd(
                conv(values(quotient@), divisor@, k, m as nat),
                #[trigger] values(remainder@)[k],
            ) by {
                lemma_conv_all_zero(values(quotient@), divisor@, k, m as nat);
                lemma_field_zero(self@[k]);
            }
        }
        let mut t: usize = m;
        while t > 0
            invariant
                t <= m,
                ld == divisor.coefficients.len(),
                lp == self.coefficients.len(),
                ld >= 1,
                lp >= ld,
                d == ld - 1,
                m == lp - ld + 1,
                self.reduced(),
                divisor.reduced(),
                lead.wf(),
                lead_inv.wf(),
                lead@ == divisor@[d as int],
                fmul(lead@, lead_inv@) == 1,
                quotient.len() == m,
                remainder.len() == lp,
                all_wf(quotient@),
                all_wf(remainder@),
                forall|k: int| 0 <= k < t ==> (#[trigger] quotient[k])@ == 0,
                forall|k: int| t + d <= k < lp ==> (#[trigger] remainder[k])@ == 0,
                forall|k: int|
                    0 <= k < lp ==> self@[k] == fadd(
                        conv(values(quotient@), divisor@, k, m as nat),
                        #[trigger] values(remainder@)[k],
                    ),
            decreases t,
        {
            let i = t - 1;
            let lc = remainder[i + d];
            if !lc.is_zero() {
                let c = lc.mul(&lead_inv);
                let ghost old_quotient = values(quotient@);
                let ghost old_remainder = values(remainder@);
                quotient.set(i, c);
                let mut j: usize = 0;
                while j < ld
                    invariant
                        j <= ld,
                        i + d < lp,
                        ld == divisor.coefficients.len(),
                        d == ld - 1,
                        divisor.reduced(),
                        c.wf(),
                        remainder.len() == lp,
                        old_remainder.len() == lp,
                        all_wf(remainder@),
                        forall|k: int|
                            0 <= k < lp ==> (#[trigger] remainder[k])@ == (if i <= k < i + j {
                                fsub(old_remainder[k], fmul(c@, divisor@[k - i]))
                            } else {
                                old_remainder[k]
                            }),
                    decreases ld - j,
                {
                    let prod = c.mul(&divisor.coefficients[j]);
                    let v = remainder[i + j].sub(&prod);
                    remainder.set(i + j, v);
                    j += 1;
                }
                proof {
                    let new_quotient = values(quotient@);
                    assert forall|k: int| 0 <= k < lp implies self@[k] == fadd(
                        conv(new_quotient, divisor@, k, m as nat),
                        #[trigger] values(remainder@)[k],
                    ) by {
                        lemma_conv_update(old_quotient, new_quotient, divisor@, k, m as nat, i as int, c@);
                        let x = conv(old_quotient, divisor@, k, m as nat);
                        let u = fmul(c@, coeff(divisor@, k - i));
                        assert(self@[k] == fadd(x, old_remainder[k]));
                        if i <= k < i + ld {
                            assert(remainder[k]@ == fsub(old_remainder[k], u));
                            lemma_fadd_fsub_cancel(x, u, old_remainder[k]);
                        } else {
                            lemma_field_zero(c@);
                            lemma_conv_bound(old_quotient, divisor@, k, m as nat);
                            lemma_field_zero(x);
                        }
                    }
                    lemma_fmul_inverse_cancel(lc@, lead@, lead_inv@);
                    lemma_field_zero(lc@);
                    assert(remainder[i + d]@ == 0);
                }
            }
            t -= 1;
        }
        proof {
            lemma_division_identity(self@, divisor@, values(quotient@), values(remainder@));
            lemma_normalize_len(values(remainder@), d as nat);
        }
        let quotient = Polynomial::new(quotient);
        let remainder = Polynomial::new(remainder);
        proof {
            lemma_values_reduced(quotient.coefficients@);
            lemma_values_reduced(remainder.coefficients@);
        }
        Ok((quotient, remainder))
    }
}

/// Without a non-zero coefficient there are no terms to write.
proof fn lemma_no_terms(p: Seq<nat>, n: nat)
    requires
        n <= p.len(),
        !has_term(p, n),
    ensures
        terms_text(p, n).len() == 0,
    decreases n,
{
    if n > 0 {
        assert(p[n - 1] == 0);
        assert(!has_term(p, (n - 1) as nat)) by {
            if has_term(p, (n - 1) as nat) {
                let j = choose|j: int| 0 <= j < n - 1 && j < p.len() && p[j] != 0;
                assert(0 <= j < n && j < p.len() && p[j] != 0);
            }
        }
        lemma_no_terms(p, (n - 1) as nat);
    }
}

/// Formats a `usize` with `Display` of std.  The contract says that the text
/// is the number written in decimal.
#[verifier::external_body]
fn index_to_decimal(i: usize) -> (text: String)
    ensures
        text@ == decimal(i as nat),
{
    format!("{}", i)
}

/// A vector of `n` zeros.
fn zeros(n: usize) -> (v: Vec<Fe>)
    ensures
        v.len() == n,
        all_wf(v@),
        forall|k: int| 0 <= k < n ==> (#[trigger] v[k])@ == 0,
{
    let mut v: Vec<Fe> = Vec::new();
    let mut i: usize = 0;
    while i < n
        invariant
            i <= n,
            v.len() == i,
            all_wf(v@),
            forall|k: int| 0 <= k < i ==> (#[trigger] v[k])@ == 0,
        decreases n - i,
    {
        v.push(Fe::zero());
        i += 1;
    }
    v
}

} // verus!
