//! The folding of the FRI low-degree test, and interpolation over an
//! evaluation domain.
//!
//! One fold takes the values of a polynomial on a domain whose `i`-th and
//! `(i + n/2)`-th points are negatives of each other, and a challenge `beta`,
//! to a vector of half the length:
//! `(v[i] + v[i + n/2]) / 2 + (v[i] - v[i + n/2]) / 2 * beta`.
//!
//! Folding is repeated, with a new challenge each time, until few enough
//! values are left; every layer and every challenge is recorded.
//!
//! At the point `x` of the domain, with `y = x^2`, a fold of the values of
//! `P(x) = P_e(x^2) + x * P_o(x^2)` gives `P_e(y) + beta * x * P_o(y)`.  That
//! is the value of the polynomial `P_e + beta * P_o` at `y` where the factor
//! `x` makes no difference, as it does on a domain of two points, where the
//! only `x` of the first half is one.

use crate::errors::StarkError;
use crate::math::domain::{
    interpolant, is_domain_size, is_power_of_two, is_primitive_root, ntt, EvaluationDomain,
};
use crate::math::field::{
    all_wf, fadd, fmul, fneg, fpow, fsub, half, lemma_field_bounds, lemma_field_zero,
    lemma_finv_unique, lemma_fpow_add, lemma_fpow_of_product, lemma_fpow_step, lemma_half,
    lemma_modulus_positive, lemma_reduce_add, lemma_reduce_bound, lemma_reduce_mul,
    lemma_rep_add, lemma_rep_mul, lemma_rep_self, lemma_rep_sub, modulus, reduce, represents,
    values, Fe,
};
use crate::math::polynomial::{is_reduced, lemma_poly_eval_bound, poly_eval, Polynomial};
use vstd::prelude::*;

verus! {

/// What a fold makes of the values `a` and `b` at a point and its negative.
pub open spec fn fold_value(a: nat, b: nat, beta: nat) -> nat {
    fadd(fmul(fadd(a, b), half()), fmul(fmul(fsub(a, b), half()), beta))
}

/// One fold of the vector `v` with the challenge `beta`.
pub open spec fn fri_fold_spec(v: Seq<nat>, beta: nat) -> Seq<nat> {
    Seq::new(v.len() / 2, |i: int| fold_value(v[i], v[i + v.len() / 2], beta))
}

/// `folded` is the fold of `layer`, a vector of even length, with `beta`.
pub open spec fn folds_to(layer: Seq<nat>, beta: nat, folded: Seq<nat>) -> bool {
    layer.len() % 2 == 0 && folded == fri_fold_spec(layer, beta)
}

/// Folding `len` values again and again comes down to `final_size` values or
/// fewer: every number of values on the way is even.
pub open spec fn folds_down(len: nat, final_size: nat) -> bool
    decreases len,
{
    len <= final_size || (len % 2 == 0 && folds_down(len / 2, final_size))
}

/// `challenge` can be asked for the challenge of any fold of a layer of
/// canonical field elements, and answers with a canonical field element.
pub open spec fn is_challenge_source<F: Fn(usize, &Vec<Fe>) -> Fe>(challenge: F) -> bool {
    &&& forall|round: usize, layer: &Vec<Fe>|
        all_wf(layer@) ==> #[trigger] call_requires(challenge, (round, layer))
    &&& forall|round: usize, layer: &Vec<Fe>, beta: Fe| #[trigger]
        call_ensures(challenge, (round, layer), beta) ==> beta.wf()
}

/// `layers` and `challenges` record the folding of `first` down to
/// `final_size` values or fewer: the first layer is `first`, each later layer
/// is the fold of the one before with the challenge recorded for it, and only
/// the last layer is as short as `final_size`.
pub open spec fn is_folding(
    layers: Seq<Vec<Fe>>,
    challenges: Seq<Fe>,
    first: Seq<Fe>,
    final_size: nat,
) -> bool {
    &&& layers.len() == challenges.len() + 1
    &&& layers[0]@ == first
    &&& all_wf(challenges)
    &&& forall|i: int| 0 <= i < layers.len() ==> all_wf((#[trigger] layers[i])@)
    &&& forall|i: int|
        0 <= i < challenges.len() ==> folds_to(
            values((#[trigger] layers[i])@),
            challenges[i]@,
            values(layers[i + 1]@),
        ) && layers[i]@.len() > final_size
    &&& layers[layers.len() - 1]@.len() <= final_size
}

/// A power of two folds down to any size but zero: a single value cannot be
/// folded.
pub proof fn lemma_power_of_two_folds_down(len: nat, final_size: nat)
    requires
        is_power_of_two(len),
    ensures
        folds_down(len, final_size) <==> final_size >= 1,
    decreases len,
{
    if len >= 2 {
        lemma_power_of_two_folds_down(len / 2, final_size);
    }
}

/// The coefficients of the even powers of `x`: the polynomial `P_e` with
/// `P(x) = P_e(x^2) + x * P_o(x^2)`.
pub open spec fn even_part(p: Seq<nat>) -> Seq<nat> {
    Seq::new(((p.len() + 1) / 2) as nat, |i: int| p[2 * i])
}

/// The coefficients of the odd powers of `x`: the polynomial `P_o` with
/// `P(x) = P_e(x^2) + x * P_o(x^2)`.
pub open spec fn odd_part(p: Seq<nat>) -> Seq<nat> {
    Seq::new((p.len() / 2) as nat, |i: int| p[2 * i + 1])
}

/// The polynomial `P_e + beta * P_o` that a fold of `p` is meant to give,
/// coefficient by coefficient.
pub open spec fn folded_polynomial(p: Seq<nat>, beta: nat) -> Seq<nat> {
    Seq::new(
        even_part(p).len(),
        |i: int|
            fadd(
                even_part(p)[i],
                fmul(
                    beta,
                    if i < odd_part(p).len() {
                        odd_part(p)[i]
                    } else {
                        0
                    },
                ),
            ),
    )
}

/// A polynomial is its even part at `x^2` plus `x` times its odd part at
/// `x^2`, both as integers modulo the field's order.
proof fn lemma_even_odd_rep(p: Seq<nat>, x: nat)
    requires
        is_reduced(p),
        x < modulus(),
    ensures
        represents(
            poly_eval(p, x),
            poly_eval(even_part(p), fmul(x, x)) as int + (x as int) * (poly_eval(
                odd_part(p),
                fmul(x, x),
            ) as int),
        ),
    decreases p.len(),
{
    let y = fmul(x, x);
    let even = even_part(p);
    let odd = odd_part(p);
    let xi = x as int;
    lemma_field_bounds(x, x);
    lemma_rep_self(x);
    lemma_rep_mul(x, xi, x, xi);
    if p.len() == 0 {
        lemma_modulus_positive();
        lemma_rep_self(0);
        assert(xi * 0 == 0) by (nonlinear_arith);
    } else if p.len() == 1 {
        assert(even.skip(1) =~= Seq::<nat>::empty());
        assert(p.skip(1) =~= Seq::<nat>::empty());
        assert(odd =~= Seq::<nat>::empty());
        lemma_field_zero(x);
        lemma_field_zero(y);
        lemma_field_zero(p[0]);
        lemma_rep_self(p[0]);
        assert(xi * 0 == 0) by (nonlinear_arith);
        assert(poly_eval(p.skip(1), x) == 0);
        assert(poly_eval(even.skip(1), y) == 0);
    } else {
        let rest = p.skip(2);
        assert(p.skip(1).skip(1) =~= rest);
        assert(even.skip(1) =~= even_part(rest));
        assert(odd.skip(1) =~= odd_part(rest));
        lemma_even_odd_rep(rest, x);
        let r = poly_eval(rest, x);
        let er = poly_eval(even_part(rest), y) as int;
        let or = poly_eval(odd_part(rest), y) as int;
        let c0 = p[0] as int;
        let c1 = p[1] as int;
        assert(p.skip(1)[0] == p[1]);
        lemma_rep_self(p[0]);
        lemma_rep_self(p[1]);
        lemma_poly_eval_bound(even_part(rest), y);
        lemma_poly_eval_bound(odd_part(rest), y);
        lemma_rep_self(er as nat);
        lemma_rep_self(or as nat);
        // The polynomial itself, by two steps of Horner's rule.
        let r_int = er + xi * or;
        lemma_rep_mul(r, r_int, x, xi);
        lemma_rep_add(fmul(r, x), r_int * xi, p[1], c1);
        let inner = fadd(fmul(r, x), p[1]);
        lemma_rep_mul(inner, r_int * xi + c1, x, xi);
        lemma_rep_add(fmul(inner, x), (r_int * xi + c1) * xi, p[0], c0);
        assert(poly_eval(p.skip(1), x) == inner);
        assert(poly_eval(p, x) == fadd(fmul(inner, x), p[0]));
        // Its even and odd parts, by one step each.
        lemma_rep_mul(er as nat, er, y, xi * xi);
        lemma_rep_add(fmul(er as nat, y), er * (xi * xi), p[0], c0);
        lemma_rep_mul(or as nat, or, y, xi * xi);
        lemma_rep_add(fmul(or as nat, y), or * (xi * xi), p[1], c1);
        let e = poly_eval(even, y);
        let o = poly_eval(odd, y);
        assert(e == fadd(fmul(er as nat, y), p[0]));
        assert(o == fadd(fmul(or as nat, y), p[1]));
        assert((r_int * xi + c1) * xi + c0 == (er * (xi * xi) + c0) + xi * (or * (xi * xi) + c1))
            by (nonlinear_arith)
            requires
                r_int == er + xi * or,
        ;
        // The right-hand side of the claim represents the same integer.
        lemma_reduce_mul(xi, or * (xi * xi) + c1);
        lemma_reduce_add(er * (xi * xi) + c0, xi * (or * (xi * xi) + c1));
        lemma_reduce_add(
            er * (xi * xi) + c0,
            xi * (reduce(or * (xi * xi) + c1) as int),
        );
    }
}

/// What a fold does to the values of a polynomial: at the point `x = w^i`
/// of a domain of `n` points, with `y = x^2`, the fold of the values of `p`
/// with `beta` is `P_e(y) + beta * x * P_o(y)`.
pub proof fn lemma_fold_of_evaluations(p: Seq<nat>, w: nat, n: nat, beta: nat, i: int)
    requires
        is_reduced(p),
        is_primitive_root(w, n),
        n >= 2,
        n % 2 == 0,
        beta < modulus(),
        0 <= i < n / 2,
    ensures
        fri_fold_spec(ntt(p, w, n), beta)[i] == fadd(
            poly_eval(even_part(p), fmul(fpow(w, i as nat), fpow(w, i as nat))),
            fmul(
                fmul(beta, fpow(w, i as nat)),
                poly_eval(odd_part(p), fmul(fpow(w, i as nat), fpow(w, i as nat))),
            ),
        ),
{
    let h = n / 2;
    let x = fpow(w, i as nat);
    let minus_x = fpow(w, (i + h) as nat);
    let y = fmul(x, x);
    let e = poly_eval(even_part(p), y);
    let o = poly_eval(odd_part(p), y);
    let a = poly_eval(p, x);
    let b = poly_eval(p, minus_x);
    let xi = x as int;
    let ei = e as int;
    let oi = o as int;
    let bi = beta as int;
    assert(ntt(p, w, n)[i] == a);
    assert(ntt(p, w, n)[i + h] == b);
    lemma_fpow_step(w, i as nat);
    lemma_fpow_step(w, (i + h) as nat);
    lemma_poly_eval_bound(even_part(p), y);
    lemma_poly_eval_bound(odd_part(p), y);
    lemma_rep_self(x);
    lemma_rep_self(e);
    lemma_rep_self(o);
    lemma_rep_self(beta);
    // The point opposite x is minus x, and has the same square.
    lemma_fpow_add(w, i as nat, h);
    lemma_reduce_bound(-1);
    assert(represents(fneg(1), -1));
    lemma_rep_mul(x, xi, fneg(1), -1);
    assert(xi * (-1) == -xi) by (nonlinear_arith);
    assert(represents(minus_x, -xi));
    lemma_rep_mul(minus_x, -xi, minus_x, -xi);
    lemma_rep_mul(x, xi, x, xi);
    assert((-xi) * (-xi) == xi * xi) by (nonlinear_arith);
    assert(fmul(minus_x, minus_x) == y);
    // The values at x and at minus x.
    lemma_even_odd_rep(p, x);
    lemma_even_odd_rep(p, minus_x);
    assert(represents(a, ei + xi * oi));
    assert(represents(b, ei - xi * oi)) by {
        lemma_reduce_mul(minus_x as int, oi);
        lemma_reduce_mul(-xi, oi);
        lemma_reduce_add(ei, (minus_x as int) * oi);
        lemma_reduce_add(ei, (-xi) * oi);
        assert(ei + (-xi) * oi == ei - xi * oi) by (nonlinear_arith);
    }
    // The fold.
    lemma_half();
    let hf = half();
    let hi = hf as int;
    lemma_rep_self(hf);
    lemma_rep_add(a, ei + xi * oi, b, ei - xi * oi);
    lemma_rep_mul(fadd(a, b), (ei + xi * oi) + (ei - xi * oi), hf, hi);
    lemma_rep_sub(a, ei + xi * oi, b, ei - xi * oi);
    lemma_rep_mul(fsub(a, b), (ei + xi * oi) - (ei - xi * oi), hf, hi);
    lemma_rep_mul(fmul(fsub(a, b), hf), ((ei + xi * oi) - (ei - xi * oi)) * hi, beta, bi);
    let mean = fmul(fadd(a, b), hf);
    let twist = fmul(fmul(fsub(a, b), hf), beta);
    let doubled = ((ei + xi * oi) + (ei - xi * oi)) * hi + (((ei + xi * oi) - (ei - xi * oi))
        * hi) * bi;
    lemma_rep_add(
        mean,
        ((ei + xi * oi) + (ei - xi * oi)) * hi,
        twist,
        (((ei + xi * oi) - (ei - xi * oi)) * hi) * bi,
    );
    assert(represents(fadd(mean, twist), doubled));
    // The same, with the halves taken.
    lemma_rep_mul(beta, bi, x, xi);
    lemma_rep_mul(fmul(beta, x), bi * xi, o, oi);
    lemma_rep_add(e, ei, fmul(fmul(beta, x), o), (bi * xi) * oi);
    let plain = ei + (bi * xi) * oi;
    assert(reduce(2 * hi) == 1) by {
        assert(fmul(2, hf) == reduce(2 * hi));
    }
    assert(doubled == (2 * hi) * plain) by (nonlinear_arith)
        requires
            doubled == ((ei + xi * oi) + (ei - xi * oi)) * hi + (((ei + xi * oi) - (ei - xi
                * oi)) * hi) * bi,
            plain == ei + (bi * xi) * oi,
    ;
    lemma_reduce_mul(2 * hi, plain);
    assert(1 * plain == plain) by (nonlinear_arith);
    assert(reduce(doubled) == reduce(plain));
    assert(fri_fold_spec(ntt(p, w, n), beta)[i] == fadd(mean, twist));
}

/// The fold of the values of a polynomial on a domain of `n` points is the
/// values of `P_e + beta * P_o` on the domain of `n/2` points, for every
/// polynomial and challenge for which the factor `x` that the fold leaves on
/// the odd part changes nothing: `beta * x * P_o(x^2) == beta * P_o(x^2)` at
/// each point `x` of the first half of the domain.  A polynomial with at most
/// `n` coefficients folds to one with at most `n/2`.
pub proof fn lemma_fold_halves_the_polynomial(p: Seq<nat>, w: nat, n: nat, beta: nat)
    requires
        is_reduced(p),
        is_primitive_root(w, n),
        n >= 2,
        n % 2 == 0,
        beta < modulus(),
        forall|i: int|
            0 <= i < n / 2 ==> fmul(
                fmul(beta, fpow(w, i as nat)),
                poly_eval(odd_part(p), #[trigger] fpow(fmul(w, w), i as nat)),
            ) == fmul(beta, poly_eval(odd_part(p), fpow(fmul(w, w), i as nat))),
    ensures
        fri_fold_spec(ntt(p, w, n), beta) == ntt(folded_polynomial(p, beta), fmul(w, w), n / 2),
        p.len() <= n ==> folded_polynomial(p, beta).len() <= n / 2,
        is_reduced(folded_polynomial(p, beta)),
{
    let h = n / 2;
    let folded = fri_fold_spec(ntt(p, w, n), beta);
    let target = ntt(folded_polynomial(p, beta), fmul(w, w), h);
    assert forall|i: int| 0 <= i < folded_polynomial(p, beta).len() implies (
    #[trigger] folded_polynomial(p, beta)[i]) < modulus() by {
        lemma_field_bounds(
            even_part(p)[i],
            fmul(
                beta,
                if i < odd_part(p).len() {
                    odd_part(p)[i]
                } else {
                    0
                },
            ),
        );
    }
    assert forall|i: int| 0 <= i < h implies folded[i] == target[i] by {
        let x = fpow(w, i as nat);
        let y = fpow(fmul(w, w), i as nat);
        lemma_fold_of_evaluations(p, w, n, beta, i);
        lemma_fpow_of_product(w, w, i as nat);
        assert(y == fmul(x, x));
        lemma_fpow_step(fmul(w, w), i as nat);
        lemma_folded_polynomial_eval(p, beta, y);
    }
    assert(folded =~= target);
}

/// The value of `P_e + beta * P_o` is the value of `P_e` plus `beta` times
/// the value of `P_o`.
pub proof fn lemma_folded_polynomial_eval(p: Seq<nat>, beta: nat, y: nat)
    requires
        is_reduced(p),
        beta < modulus(),
        y < modulus(),
    ensures
        poly_eval(folded_polynomial(p, beta), y) == fadd(
            poly_eval(even_part(p), y),
            fmul(beta, poly_eval(odd_part(p), y)),
        ),
    decreases p.len(),
{
    let f = folded_polynomial(p, beta);
    let even = even_part(p);
    let odd = odd_part(p);
    let bi = beta as int;
    let yi = y as int;
    lemma_rep_self(beta);
    lemma_rep_self(y);
    if p.len() == 0 {
        lemma_field_zero(beta);
        lemma_field_zero(0);
        assert(f =~= Seq::<nat>::empty());
    } else {
        let rest = p.skip(2);
        let c0 = p[0] as int;
        lemma_rep_self(p[0]);
        if p.len() == 1 {
            assert(f.skip(1) =~= Seq::<nat>::empty());
            assert(even.skip(1) =~= Seq::<nat>::empty());
            assert(odd =~= Seq::<nat>::empty());
            lemma_field_zero(beta);
            lemma_field_zero(y);
            lemma_field_zero(p[0]);
            lemma_field_zero(0);
            assert(poly_eval(f.skip(1), y) == 0);
            assert(poly_eval(even.skip(1), y) == 0);
        } else {
            let c1 = p[1] as int;
            lemma_rep_self(p[1]);
            assert(f.skip(1) =~= folded_polynomial(rest, beta));
            assert(even.skip(1) =~= even_part(rest));
            assert(odd.skip(1) =~= odd_part(rest));
            lemma_folded_polynomial_eval(rest, beta, y);
            let er = poly_eval(even_part(rest), y);
            let or = poly_eval(odd_part(rest), y);
            let eri = er as int;
            let ori = or as int;
            lemma_poly_eval_bound(even_part(rest), y);
            lemma_poly_eval_bound(odd_part(rest), y);
            lemma_rep_self(er);
            lemma_rep_self(or);
            // The folded polynomial, by one step of Horner's rule.
            let fr = poly_eval(folded_polynomial(rest, beta), y);
            lemma_rep_mul(beta, bi, or, ori);
            lemma_rep_add(er, eri, fmul(beta, or), bi * ori);
            lemma_rep_mul(fr, eri + bi * ori, y, yi);
            lemma_rep_mul(beta, bi, p[1], c1);
            lemma_rep_add(p[0], c0, fmul(beta, p[1]), bi * c1);
            assert(f[0] == fadd(p[0], fmul(beta, p[1])));
            lemma_rep_add(fmul(fr, y), (eri + bi * ori) * yi, f[0], c0 + bi * c1);
            // Its two parts, by one step each.
            lemma_rep_mul(er, eri, y, yi);
            lemma_rep_add(fmul(er, y), eri * yi, p[0], c0);
            lemma_rep_mul(or, ori, y, yi);
            lemma_rep_add(fmul(or, y), ori * yi, p[1], c1);
            let e = poly_eval(even, y);
            let o = poly_eval(odd, y);
            assert(e == fadd(fmul(er, y), p[0]));
            assert(o == fadd(fmul(or, y), p[1]));
            lemma_rep_mul(beta, bi, o, ori * yi + c1);
            lemma_rep_add(e, eri * yi + c0, fmul(beta, o), bi * (ori * yi + c1));
            assert((eri + bi * ori) * yi + (c0 + bi * c1) == (eri * yi + c0) + bi * (ori * yi
                + c1)) by (nonlinear_arith);
        }
    }
}

/// One round of FRI folding.  A vector of odd length cannot be folded.
pub fn fri_fold(evals: &[Fe], beta: Fe) -> (r: Result<Vec<Fe>, StarkError>)
    requires
        all_wf(evals@),
        beta.wf(),
    ensures
        r.is_err() <==> evals@.len() % 2 == 1,
        r.is_err() ==> r == Err::<Vec<Fe>, StarkError>(StarkError::OddLength),
        r.is_ok() ==> all_wf(r.unwrap()@) && values(r.unwrap()@) == fri_fold_spec(
            values(evals@),
            beta@,
        ),
{
    if evals.len() % 2 != 0 {
        return Err(StarkError::OddLength);
    }
    let half_len = evals.len() / 2;
    let half_inv = Fe::from_u64(2).inverse().unwrap();
    proof {
        lemma_half();
        lemma_finv_unique(2, half_inv@);
    }
    let mut result: Vec<Fe> = Vec::new();
    let mut i: usize = 0;
    while i < half_len
        invariant
            i <= half_len,
            half_len == evals@.len() / 2,
            evals@.len() % 2 == 0,
            all_wf(evals@),
            beta.wf(),
            half_inv.wf(),
            half_inv@ == half(),
            result.len() == i,
            all_wf(result@),
            forall|k: int|
                0 <= k < i ==> (#[trigger] result[k])@ == fold_value(
                    evals[k]@,
                    evals[k + half_len]@,
                    beta@,
                ),
        decreases half_len - i,
    {
        let a = evals[i];
        let b = evals[i + half_len];
        let folded = a.add(&b).mul(&half_inv).add(&a.sub(&b).mul(&half_inv).mul(&beta));
        result.push(folded);
        i += 1;
    }
    assert(values(result@) =~= fri_fold_spec(values(evals@), beta@));
    Ok(result)
}

/// Folds `evals` again and again until `final_size` values or fewer are
/// left, and records every layer, `evals` first, and every challenge.  The
/// challenge of each fold is taken from `challenge`, which is given the
/// number of the fold, from zero, and the layer that is about to be folded.
///
/// A layer of odd length that is longer than `final_size` cannot be folded.
pub fn fri_commit<F: Fn(usize, &Vec<Fe>) -> Fe>(evals: Vec<Fe>, final_size: usize, challenge: F)
    -> (r: Result<(Vec<Vec<Fe>>, Vec<Fe>), StarkError>)
    requires
        all_wf(evals@),
        is_challenge_source(challenge),
    ensures
        r.is_ok() <==> folds_down(evals@.len(), final_size as nat),
        r.is_err() ==> r == Err::<(Vec<Vec<Fe>>, Vec<Fe>), StarkError>(StarkError::OddLength),
        r.is_ok() ==> is_folding(r.unwrap().0@, r.unwrap().1@, evals@, final_size as nat),
        r.is_ok() ==> forall|i: int|
            0 <= i < r.unwrap().1@.len() ==> call_ensures(
                challenge,
                (i as usize, &r.unwrap().0@[i]),
                #[trigger] r.unwrap().1@[i],
            ),
{
    let mut current = evals;
    let mut layers: Vec<Vec<Fe>> = Vec::new();
    layers.push(copy_layer(&current));
    let mut challenges: Vec<Fe> = Vec::new();
    while current.len() > final_size
        invariant
            is_challenge_source(challenge),
            all_wf(current@),
            all_wf(challenges@),
            layers@.len() == challenges@.len() + 1,
            forall|i: int| 0 <= i < layers@.len() ==> all_wf((#[trigger] layers@[i])@),
            layers@[0]@ == evals@,
            layers@[layers@.len() - 1]@ == current@,
            folds_down(current@.len(), final_size as nat) == folds_down(
                evals@.len(),
                final_size as nat,
            ),
            forall|i: int|
                0 <= i < challenges@.len() ==> call_ensures(
                    challenge,
                    (i as usize, &layers@[i]),
                    #[trigger] challenges@[i],
                ),
            forall|i: int|
                0 <= i < challenges@.len() ==> folds_to(
                    values((#[trigger] layers@[i])@),
                    challenges@[i]@,
                    values(layers@[i + 1]@),
                ) && layers@[i]@.len() > final_size,
        decreases current@.len(),
    {
        let round = challenges.len();
        let beta = challenge(round, &layers[round]);
        let folded = match fri_fold(current.as_slice(), beta) {
            Ok(v) => v,
            Err(e) => {
                return Err(e);
            },
        };
        proof {
            assert(values(folded@).len() == values(current@).len() / 2);
        }
        challenges.push(beta);
        current = folded;
        layers.push(copy_layer(&current));
    }
    Ok((layers, challenges))
}

/// A copy of a layer.
fn copy_layer(layer: &Vec<Fe>) -> (copy: Vec<Fe>)
    ensures
        copy@ == layer@,
{
    let mut copy: Vec<Fe> = Vec::new();
    let mut i: usize = 0;
    while i < layer.len()
        invariant
            i <= layer.len(),
            copy@ == layer@.subrange(0, i as int),
        decreases layer.len() - i,
    {
        copy.push(layer[i]);
        i += 1;
        assert(copy@ == layer@.subrange(0, i as int));
    }
    assert(copy@ == layer@);
    copy
}

/// The polynomial of degree below `ys.len()` that takes the values `ys` on
/// the domain of that size.  The points `xs` are taken to be the points of
/// that domain, in order, and are not read.
pub fn interpolate_poly(xs: &[Fe], ys: &[Fe]) -> (r: Result<Polynomial, StarkError>)
    requires
        xs@.len() == ys@.len(),
        all_wf(ys@),
    ensures
        r.is_ok() <==> is_domain_size(ys@.len()),
        r.is_err() ==> r == Err::<Polynomial, StarkError>(StarkError::UnsupportedDomainSize),
        r.is_ok() ==> r.unwrap().wf() && r.unwrap()@ == interpolant(values(ys@)),
{
    let domain = match EvaluationDomain::new(ys.len()) {
        Ok(d) => d,
        Err(e) => {
            return Err(e);
        },
    };
    let mut evals: Vec<Fe> = Vec::new();
    let mut i: usize = 0;
    while i < ys.len()
        invariant
            i <= ys@.len(),
            evals@ == ys@.subrange(0, i as int),
        decreases ys@.len() - i,
    {
        evals.push(ys[i]);
        i += 1;
        assert(evals@ == ys@.subrange(0, i as int));
    }
    assert(evals@ == ys@);
    Ok(domain.interpolate(&evals))
}

} // verus!
