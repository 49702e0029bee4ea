//! The transform and its inverse undo each other.
//!
//! The values of a polynomial on a domain are sums of its coefficients
//! times powers of the generator; so are the coefficients that the inverse
//! transform gives, with the inverse of the generator.  Composing the two
//! leaves, for each pair of indices, a geometric sum of a power of the
//! generator over the whole domain, which is the size of the domain where
//! the indices agree and zero where they differ.

use crate::math::domain::{
    interpolant, intt, is_power_of_two, is_primitive_root, ntt, root_of_unity, EvaluationDomain,
};
use crate::math::field::{
    fadd, finv, fmul, fneg, fpow, half, lemma_fadd_laws, lemma_field_bounds, lemma_field_one,
    lemma_field_zero, lemma_finv_unique, lemma_fmul_laws, lemma_fpow_add, lemma_fpow_bound,
    lemma_fpow_of_minus_one, lemma_fpow_of_one, lemma_fpow_of_power, lemma_fpow_of_product,
    lemma_fpow_step, lemma_half, lemma_modulus_bounds, lemma_modulus_positive, lemma_reduce_add,
    lemma_reduce_bound, lemma_reduce_mul, lemma_reduce_small, modulus, reduce,
};
use crate::math::polynomial::{
    coeff, is_reduced, lemma_normal_unique, lemma_normalize, lemma_normalize_len,
    lemma_poly_eval_bound, normalize, poly_eval,
};
use vstd::prelude::*;

verus! {

/// The sum of `f(0)`, ..., `f(n - 1)` in the field.
pub open spec fn fsum(f: spec_fn(int) -> nat, n: nat) -> nat
    decreases n,
{
    if n == 0 {
        0
    } else {
        fadd(fsum(f, (n - 1) as nat), f(n - 1))
    }
}

/// The sum of the first `n` powers of `g`, from `g^0` on.
pub open spec fn geometric_sum(g: nat, n: nat) -> nat
    decreases n,
{
    if n == 0 {
        0
    } else {
        fadd(geometric_sum(g, (n - 1) as nat), fpow(g, (n - 1) as nat))
    }
}

/// A sum of zeros is zero.
pub proof fn lemma_fsum_zero(f: spec_fn(int) -> nat, n: nat)
    requires
        forall|j: int| 0 <= j < n ==> #[trigger] f(j) == 0,
    ensures
        fsum(f, n) == 0,
    decreases n,
{
    if n > 0 {
        lemma_fsum_zero(f, (n - 1) as nat);
        lemma_field_zero(0);
    }
}

/// A sum with one term that is not zero is that term.
pub proof fn lemma_fsum_single(f: spec_fn(int) -> nat, n: nat, i: int)
    requires
        0 <= i < n,
        f(i) < modulus(),
        forall|j: int| 0 <= j < n && j != i ==> #[trigger] f(j) == 0,
    ensures
        fsum(f, n) == f(i),
    decreases n,
{
    if i == n - 1 {
        lemma_fsum_zero(f, (n - 1) as nat);
        lemma_field_zero(f(i));
    } else {
        lemma_fsum_single(f, (n - 1) as nat, i);
        lemma_field_zero(f(i));
    }
}

/// A factor common to all terms can be taken out of the sum.
pub proof fn lemma_fsum_scale(f: spec_fn(int) -> nat, g: spec_fn(int) -> nat, c: nat, n: nat)
    requires
        forall|j: int| 0 <= j < n ==> #[trigger] g(j) == fmul(c, f(j)),
    ensures
        fsum(g, n) == fmul(c, fsum(f, n)),
    decreases n,
{
    if n == 0 {
        lemma_field_zero(c);
    } else {
        lemma_fsum_scale(f, g, c, (n - 1) as nat);
        lemma_fmul_laws(c, fsum(f, (n - 1) as nat), f(n - 1));
    }
}

/// The sum of term-wise sums is the sum of the sums.
pub proof fn lemma_fsum_add(
    f: spec_fn(int) -> nat,
    g: spec_fn(int) -> nat,
    h: spec_fn(int) -> nat,
    n: nat,
)
    requires
        forall|j: int| 0 <= j < n ==> #[trigger] h(j) == fadd(f(j), g(j)),
    ensures
        fsum(h, n) == fadd(fsum(f, n), fsum(g, n)),
    decreases n,
{
    if n == 0 {
        lemma_field_zero(0);
    } else {
        let m = (n - 1) as nat;
        lemma_fsum_add(f, g, h, m);
        let a = fsum(f, m) as int;
        let b = fsum(g, m) as int;
        let x = f(n - 1) as int;
        let y = g(n - 1) as int;
        lemma_reduce_add(a + b, x + y);
        lemma_reduce_add(a + x, b + y);
    }
}

/// The first term can be taken off the front of a sum.
pub proof fn lemma_fsum_front(f: spec_fn(int) -> nat, g: spec_fn(int) -> nat, n: nat)
    requires
        n > 0,
        forall|j: int| 0 <= j < n - 1 ==> #[trigger] g(j) == f(j + 1),
    ensures
        fsum(f, n) == fadd(fsum(g, (n - 1) as nat), f(0)),
    decreases n,
{
    if n == 1 {
        assert(fsum(f, 0) == 0);
        assert(fsum(g, 0) == 0);
    } else {
        let m = (n - 1) as nat;
        lemma_fsum_front(f, g, m);
        assert(fsum(g, m) == fadd(fsum(g, (m - 1) as nat), g(m - 1)));
        lemma_fadd_laws(fsum(g, (m - 1) as nat), f(0), f(n - 1));
    }
}

/// A double sum can be taken in either order.
pub proof fn lemma_fsum_exchange(
    t: spec_fn(int, int) -> nat,
    rows: spec_fn(int) -> nat,
    columns: spec_fn(int) -> nat,
    n: nat,
    m: nat,
)
    requires
        forall|j: int| 0 <= j < n ==> #[trigger] rows(j) == fsum(|k: int| t(j, k), m),
        forall|k: int| 0 <= k < m ==> #[trigger] columns(k) == fsum(|j: int| t(j, k), n),
    ensures
        fsum(rows, n) == fsum(columns, m),
    decreases n,
{
    if n == 0 {
        lemma_fsum_zero(columns, m);
    } else {
        let last = (n - 1) as nat;
        let shorter = |k: int| fsum(|j: int| t(j, k), last);
        let bottom = |k: int| t(n - 1, k);
        lemma_fsum_exchange(t, rows, shorter, last, m);
        lemma_fsum_add(shorter, bottom, columns, m);
    }
}

/// The sum of the first `n` powers of one is `n`.
pub proof fn lemma_geometric_sum_of_one(n: nat)
    ensures
        geometric_sum(1, n) == reduce(n as int),
    decreases n,
{
    lemma_modulus_bounds();
    if n == 0 {
        lemma_reduce_small(0);
    } else {
        lemma_geometric_sum_of_one((n - 1) as nat);
        lemma_fpow_of_one((n - 1) as nat);
        lemma_reduce_small(1);
        lemma_reduce_add(n - 1, 1);
    }
}

/// The sum of the first `a + b` powers is the sum of the first `a`, plus
/// `g^a` times the sum of the first `b`.
pub proof fn lemma_geometric_sum_split(g: nat, a: nat, b: nat)
    ensures
        geometric_sum(g, a + b) == fadd(
            geometric_sum(g, a),
            fmul(fpow(g, a), geometric_sum(g, b)),
        ),
        geometric_sum(g, a) < modulus(),
    decreases b,
{
    lemma_modulus_positive();
    if a > 0 {
        lemma_field_bounds(geometric_sum(g, (a - 1) as nat), fpow(g, (a - 1) as nat));
    }
    if b == 0 {
        lemma_field_zero(fpow(g, a));
        lemma_field_zero(geometric_sum(g, a));
    } else {
        let prev = (b - 1) as nat;
        lemma_geometric_sum_split(g, a, prev);
        lemma_fpow_add(g, a, prev);
        lemma_fmul_laws(fpow(g, a), geometric_sum(g, prev), fpow(g, prev));
        lemma_fadd_laws(
            geometric_sum(g, a),
            fmul(fpow(g, a), geometric_sum(g, prev)),
            fmul(fpow(g, a), fpow(g, prev)),
        );
    }
}

/// Half of a power of two above one is a power of two.
pub proof fn lemma_half_power_of_two(n: nat)
    requires
        is_power_of_two(n),
        n >= 2,
    ensures
        n % 2 == 0,
        is_power_of_two(n / 2),
{
}

/// The square of a primitive root of order `n` is one of order `n / 2`.
pub proof fn lemma_square_of_root(w: nat, n: nat)
    requires
        is_power_of_two(n),
        is_primitive_root(w, n),
        n >= 2,
    ensures
        is_primitive_root(fmul(w, w), n / 2),
{
    let h = n / 2;
    let w2 = fmul(w, w);
    lemma_field_bounds(w, w);
    lemma_fpow_of_product(w, w, h);
    lemma_fpow_add(w, h, h);
    if h >= 2 {
        lemma_half_power_of_two(h);
        lemma_fpow_of_product(w, w, h / 2);
        lemma_fpow_add(w, h / 2, h / 2);
    }
}

/// The powers of a primitive root of order `n`, other than one, add up to
/// zero over the domain: the sum of `(w^d)^j` over `j < n` is zero for
/// `0 < d < n`.
pub proof fn lemma_geometric_sum_of_root(w: nat, n: nat, d: nat)
    requires
        is_power_of_two(n),
        is_primitive_root(w, n),
        0 < d < n,
    ensures
        geometric_sum(fpow(w, d), n) == 0,
    decreases n,
{
    let h = n / 2;
    let g = fpow(w, d);
    lemma_half_power_of_two(n);
    lemma_geometric_sum_split(g, h, h);
    lemma_fpow_of_power(w, d, h);
    lemma_fpow_of_power(w, h, d);
    assert(d * h == h * d) by (nonlinear_arith);
    lemma_fpow_of_minus_one(d);
    let s = geometric_sum(g, h);
    if d % 2 == 1 {
        // g^(n/2) is minus one: the two halves cancel.
        lemma_reduce_bound(-1);
        lemma_fmul_laws(fneg(1), s, 0);
        lemma_reduce_mul(s as int, -1);
        lemma_reduce_add(s as int, s * (-1));
        assert(s + s * (-1) == 0) by (nonlinear_arith);
        lemma_reduce_small(0);
        lemma_modulus_positive();
    } else {
        // g is a power of the square of w, a root of half the order.
        let e = d / 2;
        lemma_square_of_root(w, n);
        lemma_fpow_of_product(w, w, e);
        lemma_fpow_add(w, e, e);
        assert(fpow(fmul(w, w), e) == g);
        lemma_geometric_sum_of_root(fmul(w, w), h, e);
        lemma_field_zero(fpow(g, h));
        lemma_field_zero(0);
    }
}

/// The term of `x^j` in the value of the polynomial `p` at `x`.
pub open spec fn monomial(p: Seq<nat>, x: nat, j: int) -> nat {
    fmul(coeff(p, j), fpow(x, j as nat))
}

/// The value of a polynomial is the sum of its terms.
pub proof fn lemma_poly_eval_is_sum(p: Seq<nat>, x: nat)
    requires
        is_reduced(p),
    ensures
        poly_eval(p, x) == fsum(|j: int| monomial(p, x, j), p.len()),
    decreases p.len(),
{
    let terms = |j: int| monomial(p, x, j);
    if p.len() > 0 {
        let q = p.skip(1);
        let shifted = |j: int| monomial(q, x, j);
        let moved = |j: int| monomial(p, x, j + 1);
        lemma_poly_eval_is_sum(q, x);
        // Each term of the rest, times x, is the next term of the whole.
        assert forall|j: int| 0 <= j < q.len() implies #[trigger] moved(j) == fmul(
            x,
            shifted(j),
        ) by {
            lemma_fpow_step(x, j as nat);
            lemma_fmul_laws(q[j], fpow(x, j as nat), x);
            lemma_fmul_laws(x, fmul(q[j], fpow(x, j as nat)), 0);
        }
        lemma_fsum_scale(shifted, moved, x, q.len());
        lemma_fmul_laws(x, fsum(shifted, q.len()), 0);
        lemma_fsum_front(terms, moved, p.len());
        // The first term is the constant coefficient.
        lemma_modulus_bounds();
        lemma_field_one(1);
        lemma_field_one(p[0]);
        assert(terms(0) == p[0]);
    }
}

/// Scaling every coefficient of a polynomial scales its values.
pub proof fn lemma_poly_eval_scaled(p: Seq<nat>, q: Seq<nat>, c: nat, x: nat)
    requires
        p.len() == q.len(),
        forall|j: int| 0 <= j < p.len() ==> #[trigger] q[j] == fmul(c, p[j]),
    ensures
        poly_eval(q, x) == fmul(c, poly_eval(p, x)),
    decreases p.len(),
{
    if p.len() == 0 {
        lemma_field_zero(c);
    } else {
        lemma_poly_eval_scaled(p.skip(1), q.skip(1), c, x);
        let r = poly_eval(p.skip(1), x);
        lemma_fmul_laws(c, r, x);
        lemma_fmul_laws(c, fmul(r, x), p[0]);
    }
}

/// The inverse of a primitive root is a primitive root of the same order.
pub proof fn lemma_inverse_of_root(w: nat, n: nat)
    requires
        is_primitive_root(w, n),
        n >= 1,
    ensures
        fmul(w, finv(w)) == 1,
        is_primitive_root(finv(w), n),
{
    lemma_fpow_bound(w, (n - 1) as nat);
    lemma_finv_unique(w, fpow(w, (n - 1) as nat));
    let v = finv(w);
    lemma_modulus_bounds();
    lemma_fpow_of_product(w, v, n);
    lemma_fpow_of_one(n);
    lemma_fpow_bound(v, n);
    lemma_field_one(fpow(v, n));
    if n >= 2 {
        let h = n / 2;
        lemma_fpow_of_product(w, v, h);
        lemma_fpow_of_one(h);
        lemma_fpow_bound(v, h);
        lemma_reduce_bound(-1);
        lemma_reduce_mul(-1, -1);
        lemma_reduce_small(1);
        lemma_finv_unique(fneg(1), fneg(1));
        lemma_finv_unique(fneg(1), fpow(v, h));
    }
}

/// A power of two has an inverse in the field.
pub proof fn lemma_inverse_of_size(n: nat)
    requires
        is_power_of_two(n),
    ensures
        finv(reduce(n as int)) < modulus(),
        fmul(reduce(n as int), finv(reduce(n as int))) == 1,
    decreases n,
{
    lemma_modulus_bounds();
    if n == 1 {
        lemma_reduce_small(1);
        lemma_field_one(1);
        lemma_finv_unique(1, 1);
    } else {
        let m = n / 2;
        lemma_inverse_of_size(m);
        lemma_half();
        let im = finv(reduce(m as int));
        let candidate = fmul(im, half());
        lemma_field_bounds(im, half());
        // n * (im * half) == (m * im) * (2 * half)
        let ni = n as int;
        let mi = m as int;
        let ii = im as int;
        let hi = half() as int;
        lemma_reduce_mul(mi, ii);
        lemma_reduce_mul(2, hi);
        lemma_reduce_mul(ni, ii * hi);
        lemma_reduce_mul(mi * ii, 2 * hi);
        assert(ni * (ii * hi) == (mi * ii) * (2 * hi)) by (nonlinear_arith)
            requires
                ni == 2 * mi,
        ;
        lemma_reduce_small(1);
        assert(1 * 1 == 1);
        lemma_finv_unique(reduce(n as int), candidate);
    }
}

/// The sum over the domain of the powers of `a^k * b^j`, for two primitive
/// roots `a` and `b` that are inverses of each other: the size of the domain
/// where `k == j`, and zero elsewhere.
pub proof fn lemma_orthogonality(a: nat, b: nat, n: nat, k: nat, j: nat)
    requires
        is_power_of_two(n),
        is_primitive_root(a, n),
        is_primitive_root(b, n),
        fmul(a, b) == 1,
        k < n,
        j < n,
    ensures
        geometric_sum(fmul(fpow(a, k), fpow(b, j)), n) == if k == j {
            reduce(n as int)
        } else {
            0
        },
{
    lemma_modulus_bounds();
    if k == j {
        lemma_fpow_of_product(a, b, k);
        lemma_fpow_of_one(k);
        lemma_geometric_sum_of_one(n);
    } else if k > j {
        let d = (k - j) as nat;
        lemma_fpow_add(a, d, j);
        lemma_fpow_of_product(a, b, j);
        lemma_fpow_of_one(j);
        lemma_fmul_laws(fpow(a, d), fpow(a, j), fpow(b, j));
        lemma_fpow_bound(a, d);
        lemma_field_one(fpow(a, d));
        lemma_geometric_sum_of_root(a, n, d);
    } else {
        let d = (j - k) as nat;
        lemma_fpow_add(b, d, k);
        lemma_fpow_of_product(a, b, k);
        lemma_fpow_of_one(k);
        lemma_fmul_laws(fpow(b, d), fpow(b, k), fpow(a, k));
        lemma_fmul_laws(fpow(a, k), fpow(b, k), 0);
        lemma_fmul_laws(fpow(a, k), fmul(fpow(b, d), fpow(b, k)), 0);
        lemma_fpow_bound(b, d);
        lemma_field_one(fpow(b, d));
        lemma_geometric_sum_of_root(b, n, d);
    }
}

/// A sum of powers of `g` is the geometric sum of `g`.
pub proof fn lemma_fsum_of_powers(f: spec_fn(int) -> nat, g: nat, n: nat)
    requires
        forall|i: int| 0 <= i < n ==> #[trigger] f(i) == fpow(g, i as nat),
    ensures
        fsum(f, n) == geometric_sum(g, n),
    decreases n,
{
    if n > 0 {
        lemma_fsum_of_powers(f, g, (n - 1) as nat);
    }
}

/// One entry of the transform with the root `b`, of the transform with the
/// root `a`, of the coefficients `c`, divided by the size of the domain: the
/// entry of `c` itself, for primitive roots `a` and `b` that are inverses of
/// each other.
pub proof fn lemma_transform_inverts(c: Seq<nat>, a: nat, b: nat, n: nat, j: nat)
    requires
        is_power_of_two(n),
        is_primitive_root(a, n),
        is_primitive_root(b, n),
        fmul(a, b) == 1,
        is_reduced(c),
        c.len() <= n,
        j < n,
    ensures
        fmul(finv(reduce(n as int)), poly_eval(ntt(c, a, n), fpow(b, j))) == coeff(c, j as int),
{
    let m = c.len();
    let v = ntt(c, a, n);
    let y = fpow(b, j);
    let size = reduce(n as int);
    let size_inv = finv(size);
    lemma_inverse_of_size(n);
    lemma_modulus_bounds();
    assert forall|i: int| 0 <= i < v.len() implies #[trigger] v[i] < modulus() by {
        lemma_poly_eval_bound(c, fpow(a, i as nat));
    }
    // The entry as a double sum, rows first.
    let t = |i: int, k: int| fmul(monomial(c, fpow(a, i as nat), k), fpow(y, i as nat));
    let rows = |i: int| monomial(v, y, i);
    lemma_poly_eval_is_sum(v, y);
    assert forall|i: int| 0 <= i < n implies #[trigger] rows(i) == fsum(|k: int| t(i, k), m) by {
        let x = fpow(a, i as nat);
        let inner = |k: int| monomial(c, x, k);
        let row = |k: int| t(i, k);
        lemma_poly_eval_is_sum(c, x);
        assert forall|k: int| 0 <= k < m implies #[trigger] row(k) == fmul(
            fpow(y, i as nat),
            inner(k),
        ) by {
            lemma_fmul_laws(inner(k), fpow(y, i as nat), 0);
        }
        lemma_fsum_scale(inner, row, fpow(y, i as nat), m);
        lemma_fmul_laws(fpow(y, i as nat), fsum(inner, m), 0);
    }
    // The same double sum, columns first.
    let columns = |k: int|
        fmul(
            coeff(c, k),
            if k == j {
                size
            } else {
                0
            },
        );
    assert forall|k: int| 0 <= k < m implies #[trigger] columns(k) == fsum(
        |i: int| t(i, k),
        n,
    ) by {
        let g = fmul(fpow(a, k as nat), fpow(b, j));
        let column = |i: int| t(i, k);
        let powers = |i: int| fpow(g, i as nat);
        assert forall|i: int| 0 <= i < n implies #[trigger] column(i) == fmul(
            c[k],
            powers(i),
        ) by {
            // (a^i)^k * (b^j)^i == (a^k * b^j)^i
            lemma_fpow_of_power(a, i as nat, k as nat);
            lemma_fpow_of_power(a, k as nat, i as nat);
            assert((i as nat) * (k as nat) == (k as nat) * (i as nat)) by (nonlinear_arith);
            lemma_fpow_of_product(fpow(a, k as nat), y, i as nat);
            lemma_fmul_laws(c[k], fpow(fpow(a, i as nat), k as nat), fpow(y, i as nat));
        }
        lemma_fsum_scale(powers, column, c[k], n);
        lemma_fsum_of_powers(powers, g, n);
        lemma_orthogonality(a, b, n, k as nat, j);
    }
    lemma_fsum_exchange(t, rows, columns, n, m);
    // Only the column of `j` is left.
    if j < m {
        lemma_field_bounds(c[j as int], size);
        assert forall|k: int| 0 <= k < m && k != j implies #[trigger] columns(k) == 0 by {
            lemma_field_zero(c[k]);
        }
        lemma_fsum_single(columns, m, j as int);
        lemma_fmul_laws(size_inv, c[j as int], size);
        lemma_fmul_laws(size_inv, c[j as int], 0);
        lemma_fmul_laws(c[j as int], size_inv, size);
        lemma_fmul_laws(size_inv, size, 0);
        lemma_field_one(c[j as int]);
    } else {
        assert forall|k: int| 0 <= k < m implies #[trigger] columns(k) == 0 by {
            lemma_field_zero(c[k]);
        }
        lemma_fsum_zero(columns, m);
        lemma_field_zero(size_inv);
    }
}

/// The sequence `c` cut or padded with zeros to `n` entries.
pub open spec fn padded(c: Seq<nat>, n: nat) -> Seq<nat> {
    Seq::new(n, |j: int| coeff(c, j))
}

/// The inverse transform undoes the transform: from the values of a
/// polynomial with at most `n` coefficients on a domain of `n` points, it
/// gives the coefficients back, padded with zeros.
pub proof fn lemma_intt_of_ntt(c: Seq<nat>, w: nat, n: nat)
    requires
        is_power_of_two(n),
        is_primitive_root(w, n),
        is_reduced(c),
        c.len() <= n,
    ensures
        intt(ntt(c, w, n), w, n) == padded(c, n),
{
    lemma_inverse_of_root(w, n);
    let back = intt(ntt(c, w, n), w, n);
    assert forall|j: int| 0 <= j < n implies back[j] == padded(c, n)[j] by {
        lemma_transform_inverts(c, w, finv(w), n, j as nat);
    }
    assert(back =~= padded(c, n));
}

/// The transform undoes the inverse transform: the polynomial that the
/// inverse transform gives for `n` values takes those values on the domain.
pub proof fn lemma_ntt_of_intt(v: Seq<nat>, w: nat, n: nat)
    requires
        is_power_of_two(n),
        is_primitive_root(w, n),
        is_reduced(v),
        v.len() == n,
    ensures
        ntt(intt(v, w, n), w, n) == v,
{
    lemma_inverse_of_root(w, n);
    lemma_fmul_laws(w, finv(w), 0);
    let u = intt(v, w, n);
    let raw = ntt(v, finv(w), n);
    let size_inv = finv(reduce(n as int));
    let forth = ntt(u, w, n);
    assert forall|i: int| 0 <= i < n implies forth[i] == v[i] by {
        lemma_poly_eval_scaled(raw, u, size_inv, fpow(w, i as nat));
        lemma_transform_inverts(v, finv(w), w, n, i as nat);
    }
    assert(forth =~= v);
}

/// A polynomial whose coefficients are all zero is zero everywhere.
pub proof fn lemma_poly_eval_zeros(p: Seq<nat>, x: nat)
    requires
        forall|i: int| 0 <= i < p.len() ==> p[i] == 0,
    ensures
        poly_eval(p, x) == 0,
    decreases p.len(),
{
    if p.len() > 0 {
        lemma_poly_eval_zeros(p.skip(1), x);
        lemma_field_zero(x);
        lemma_field_zero(0);
    }
}

/// The polynomial that takes the value zero at every point of a domain is
/// the zero polynomial.
pub proof fn lemma_interpolant_zeros(v: Seq<nat>)
    requires
        forall|i: int| 0 <= i < v.len() ==> v[i] == 0,
    ensures
        interpolant(v).len() == 0,
{
    let w = root_of_unity(v.len());
    let c = intt(v, w, v.len());
    assert forall|j: int| 0 <= j < c.len() implies c[j] == 0 by {
        lemma_poly_eval_zeros(v, fpow(finv(w), j as nat));
        lemma_field_zero(finv(reduce(v.len() as int)));
    }
    lemma_normalize_len(c, 0);
}

/// The values of a polynomial with at most as many coefficients as the
/// domain has points determine the polynomial: interpolating them gives it
/// back, without its trailing zeros.
pub proof fn lemma_interpolation_recovers_polynomial(p: Seq<nat>, domain: EvaluationDomain)
    requires
        domain.wf(),
        is_reduced(p),
        p.len() <= domain.spec_size(),
    ensures
        interpolant(ntt(p, domain.omega(), domain.spec_size())) == normalize(p),
{
    let n = domain.spec_size();
    domain.lemma_wf();
    lemma_intt_of_ntt(p, domain.omega(), n);
    lemma_normalize(padded(p, n));
    lemma_normalize(p);
    assert forall|k: int| coeff(normalize(padded(p, n)), k) == coeff(normalize(p), k) by {
        assert(coeff(normalize(padded(p, n)), k) == coeff(padded(p, n), k));
        assert(coeff(normalize(p), k) == coeff(p, k));
    }
    lemma_normal_unique(normalize(padded(p, n)), normalize(p));
}

/// The transform of the inverse transform of as many values as the domain
/// has points is those values.
pub proof fn lemma_transform_of_inverse(v: Seq<nat>, domain: EvaluationDomain)
    requires
        domain.wf(),
        is_reduced(v),
        v.len() == domain.spec_size(),
    ensures
        ntt(intt(v, domain.omega(), domain.spec_size()), domain.omega(), domain.spec_size())
            == v,
{
    domain.lemma_wf();
    lemma_ntt_of_intt(v, domain.omega(), domain.spec_size());
}

/// The inverse transform of the transform of as many coefficients as the
/// domain has points is those coefficients.
pub proof fn lemma_inverse_of_transform(c: Seq<nat>, domain: EvaluationDomain)
    requires
        domain.wf(),
        is_reduced(c),
        c.len() == domain.spec_size(),
    ensures
        intt(ntt(c, domain.omega(), domain.spec_size()), domain.omega(), domain.spec_size())
            == c,
{
    domain.lemma_wf();
    lemma_intt_of_ntt(c, domain.omega(), domain.spec_size());
    assert(padded(c, domain.spec_size()) =~= c);
}

/// The interpolant of values over a domain takes those values on it.
pub proof fn lemma_interpolant_takes_values(v: Seq<nat>, domain: EvaluationDomain)
    requires
        domain.wf(),
        is_reduced(v),
        v.len() == domain.spec_size(),
    ensures
        ntt(interpolant(v), domain.omega(), domain.spec_size()) == v,
{
    let n = domain.spec_size();
    let w = domain.omega();
    let c = intt(v, w, n);
    domain.lemma_wf();
    lemma_ntt_of_intt(v, w, n);
    lemma_normalize(c);
    assert forall|i: int| 0 <= i < n implies ntt(normalize(c), w, n)[i] == ntt(c, w, n)[i] by {
        lemma_poly_eval_normalize(c, fpow(w, i as nat));
    }
    assert(ntt(normalize(c), w, n) =~= ntt(c, w, n));
}

/// Trailing zeros do not change the values of a polynomial.
pub proof fn lemma_poly_eval_normalize(p: Seq<nat>, x: nat)
    ensures
        poly_eval(normalize(p), x) == poly_eval(p, x),
    decreases p.len(),
{
    if p.len() > 0 && p.last() == 0 {
        let q = p.drop_last();
        lemma_poly_eval_normalize(q, x);
        lemma_poly_eval_drop_zero(p, x);
    }
}

/// A zero at the end of the coefficients does not change the values of a
/// polynomial.
pub proof fn lemma_poly_eval_drop_zero(p: Seq<nat>, x: nat)
    requires
        p.len() > 0,
        p.last() == 0,
    ensures
        poly_eval(p.drop_last(), x) == poly_eval(p, x),
    decreases p.len(),
{
    if p.len() == 1 {
        assert(p.skip(1) =~= Seq::<nat>::empty());
        assert(p.drop_last() =~= Seq::<nat>::empty());
        assert(poly_eval(p.skip(1), x) == 0);
        lemma_field_zero(x);
        lemma_field_zero(0);
    } else {
        assert(p.skip(1).drop_last() =~= p.drop_last().skip(1));
        lemma_poly_eval_drop_zero(p.skip(1), x);
    }
}

/// Values whose interpolant is the zero polynomial are all zero.
pub proof fn lemma_zero_interpolant(v: Seq<nat>, domain: EvaluationDomain)
    requires
        domain.wf(),
        is_reduced(v),
        v.len() == domain.spec_size(),
        interpolant(v).len() == 0,
    ensures
        forall|i: int| 0 <= i < v.len() ==> v[i] == 0,
{
    let n = domain.spec_size();
    let w = domain.omega();
    lemma_interpolant_takes_values(v, domain);
    assert forall|i: int| 0 <= i < v.len() implies v[i] == 0 by {
        assert(ntt(interpolant(v), w, n)[i] == poly_eval(interpolant(v), fpow(w, i as nat)));
    }
}

} // verus!
