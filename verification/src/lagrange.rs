//! Polynomials modulo the order of the base point, and their value at zero
//! from their values at other points.

use vstd::arithmetic::power::{lemma_pow0, lemma_pow1, lemma_pow_adds, pow};
use vstd::prelude::*;

use crate::curve::{congruent, inverse, invertible, order};

verus! {

/// The quotient that witnesses a congruence.
pub proof fn lemma_congruent_witness(a: int, b: int) -> (q: int)
    requires
        congruent(a, b),
    ensures
        a - b == order() * q,
{
    (a - b) / order()
}

/// A multiple of the order makes a congruence.
pub proof fn lemma_congruent_by(a: int, b: int, q: int)
    requires
        a - b == order() * q,
    ensures
        congruent(a, b),
{
}

/// Congruent numbers stay congruent when congruent numbers are added.
pub proof fn lemma_congruent_sum(a: int, b: int, c: int, d: int)
    requires
        congruent(a, b),
        congruent(c, d),
    ensures
        congruent(a + c, b + d),
        congruent(a - c, b - d),
{
    let p = lemma_congruent_witness(a, b);
    let q = lemma_congruent_witness(c, d);
    lemma_congruent_by(a + c, b + d, p + q);
    lemma_congruent_by(a - c, b - d, p - q);
}

/// Congruent numbers stay congruent when multiplied by congruent numbers.
pub proof fn lemma_congruent_product(a: int, b: int, c: int, d: int)
    requires
        congruent(a, b),
        congruent(c, d),
    ensures
        congruent(a * c, b * d),
{
    let p = lemma_congruent_witness(a, b);
    let q = lemma_congruent_witness(c, d);
    let l = order();
    assert(a * c - b * d == l * (c * p + b * q)) by (nonlinear_arith)
        requires
            a - b == l * p,
            c - d == l * q,
    ;
    lemma_congruent_by(a * c, b * d, c * p + b * q);
}

/// Congruence carries over.
pub proof fn lemma_congruent_trans(a: int, b: int, c: int)
    requires
        congruent(a, b),
        congruent(b, c),
    ensures
        congruent(a, c),
        congruent(c, a),
{
    let p = lemma_congruent_witness(a, b);
    let q = lemma_congruent_witness(b, c);
    lemma_congruent_by(a, c, p + q);
    lemma_congruent_by(c, a, -(p + q));
}

/// Congruence goes both ways.
pub proof fn lemma_congruent_sym(a: int, b: int)
    requires
        congruent(a, b),
    ensures
        congruent(b, a),
{
    let q = lemma_congruent_witness(a, b);
    lemma_congruent_by(b, a, -q);
}

/// A number is congruent to itself and to its remainder.
pub proof fn lemma_congruent_mod(a: int)
    ensures
        congruent(a, a),
        congruent(a % order(), a),
        congruent(a, a % order()),
{
    let q = a / order();
    lemma_congruent_by(a % order(), a, -q);
    lemma_congruent_by(a, a % order(), q);
}

/// Congruent numbers have the same remainder.
pub proof fn lemma_congruent_same(a: int, b: int)
    requires
        congruent(a, b),
    ensures
        a % order() == b % order(),
{
    let q = lemma_congruent_witness(a, b);
}

/// A number times its inverse is one.
pub proof fn lemma_inverse(x: int)
    requires
        invertible(x),
    ensures
        0 <= inverse(x) < order(),
        congruent(x * inverse(x), 1),
{
    let y = inverse(x);
    assert((x * y) % order() == 1);
    lemma_congruent_mod(x * y);
}

/// The factor that one point contributes to the coefficient of another.
pub open spec fn factor(x: int, y: int) -> int {
    (y * inverse((y - x) % order())) % order()
}

/// The Lagrange coefficient at zero of a point among points.
pub open spec fn lagrange(x: int, xs: Seq<int>) -> int
    decreases xs.len(),
{
    if xs.len() == 0 {
        1
    } else if xs.last() == x {
        lagrange(x, xs.drop_last())
    } else {
        (lagrange(x, xs.drop_last()) * factor(x, xs.last())) % order()
    }
}

/// The value of a polynomial, given by its coefficients from the constant one
/// on.
pub open spec fn poly(f: Seq<int>, x: int) -> int
    decreases f.len(),
{
    if f.len() == 0 {
        0
    } else {
        (poly(f.skip(1), x) * x + f[0]) % order()
    }
}

/// The power of a scalar.
pub open spec fn power(x: int, n: nat) -> int
    decreases n,
{
    if n == 0 {
        1
    } else {
        (power(x, (n - 1) as nat) * x) % order()
    }
}

/// Whether points are distinct and their differences can be inverted.
pub open spec fn separated(xs: Seq<int>) -> bool {
    forall|i: int, j: int|
        0 <= i < xs.len() && 0 <= j < xs.len() && i != j ==> #[trigger] xs[i] != #[trigger] xs[j]
            && invertible((xs[i] - xs[j]) % order())
}

/// The sum of a function's values over points.
pub open spec fn sum_over(xs: Seq<int>, f: spec_fn(int) -> int) -> int
    decreases xs.len(),
{
    if xs.len() == 0 {
        0
    } else {
        sum_over(xs.drop_last(), f) + f(xs.last())
    }
}

proof fn lemma_sum_remove(xs: Seq<int>, f: spec_fn(int) -> int, p: int)
    requires
        0 <= p < xs.len(),
    ensures
        sum_over(xs, f) == sum_over(xs.remove(p), f) + f(xs[p]),
    decreases xs.len(),
{
    let n = xs.len() - 1;
    if p == n {
        assert(xs.remove(p) =~= xs.drop_last());
    } else {
        lemma_sum_remove(xs.drop_last(), f, p);
        assert(xs.remove(p).drop_last() =~= xs.drop_last().remove(p));
        assert(xs.remove(p).last() == xs.last());
    }
}

proof fn lemma_sum_congruent(xs: Seq<int>, f: spec_fn(int) -> int, g: spec_fn(int) -> int)
    requires
        forall|i: int| 0 <= i < xs.len() ==> congruent(f(#[trigger] xs[i]), g(xs[i])),
    ensures
        congruent(sum_over(xs, f), sum_over(xs, g)),
    decreases xs.len(),
{
    if xs.len() > 0 {
        let short = xs.drop_last();
        assert forall|i: int| 0 <= i < short.len() implies congruent(
            f(#[trigger] short[i]),
            g(short[i]),
        ) by {
            assert(short[i] == xs[i]);
        }
        lemma_sum_congruent(short, f, g);
        assert(xs[xs.len() - 1] == xs.last());
        lemma_congruent_sum(
            sum_over(short, f),
            sum_over(short, g),
            f(xs.last()),
            g(xs.last()),
        );
    }
}

proof fn lemma_sum_linear(
    xs: Seq<int>,
    f: spec_fn(int) -> int,
    g: spec_fn(int) -> int,
    h: spec_fn(int) -> int,
    a: int,
    b: int,
)
    requires
        forall|x: int| #[trigger] h(x) == a * f(x) + b * g(x),
    ensures
        sum_over(xs, h) == a * sum_over(xs, f) + b * sum_over(xs, g),
    decreases xs.len(),
{
    if xs.len() > 0 {
        lemma_sum_linear(xs.drop_last(), f, g, h, a, b);
        let s = sum_over(xs.drop_last(), f);
        let t = sum_over(xs.drop_last(), g);
        let u = f(xs.last());
        let v = g(xs.last());
        assert(a * s + b * t + (a * u + b * v) == a * (s + u) + b * (t + v)) by (nonlinear_arith);
    } else {
        assert(a * 0 + b * 0 == 0) by (nonlinear_arith);
    }
}

/// A point leaves a coefficient by its factor, wherever it stands.
pub proof fn lemma_lagrange_remove(x: int, xs: Seq<int>, p: int)
    requires
        0 <= p < xs.len(),
        xs[p] != x,
    ensures
        congruent(lagrange(x, xs), lagrange(x, xs.remove(p)) * factor(x, xs[p])),
    decreases xs.len(),
{
    let short = xs.drop_last();
    let z = factor(x, xs[p]);
    if p == xs.len() - 1 {
        assert(xs.remove(p) =~= short);
        lemma_congruent_mod(lagrange(x, short) * z);
    } else {
        let without = xs.remove(p);
        lemma_lagrange_remove(x, short, p);
        assert(without.drop_last() =~= short.remove(p));
        assert(without.last() == xs.last());
        if xs.last() != x {
            let y = factor(x, xs.last());
            let a = lagrange(x, short);
            let b = lagrange(x, short.remove(p));
            lemma_congruent_mod(y);
            lemma_congruent_product(a, b * z, y, y);
            lemma_congruent_mod(a * y);
            lemma_congruent_trans((a * y) % order(), a * y, (b * z) * y);
            lemma_congruent_mod(b * y);
            lemma_congruent_mod(z);
            lemma_congruent_product((b * y) % order(), b * y, z, z);
            assert((b * z) * y == (b * y) * z) by (nonlinear_arith);
            lemma_congruent_sym((b * y) % order() * z, (b * y) * z);
            lemma_congruent_trans((a * y) % order(), (b * y) * z, (b * y) % order() * z);
        }
    }
}

/// The coefficient times the difference to another point is the coefficient
/// without that point, times that point.
proof fn lemma_lagrange_difference(x: int, xs: Seq<int>, p: int)
    requires
        0 <= p < xs.len(),
        xs[p] != x,
        invertible((xs[p] - x) % order()),
    ensures
        congruent(lagrange(x, xs) * (xs[p] - x), lagrange(x, xs.remove(p)) * xs[p]),
{
    let z = xs[p];
    let d = z - x;
    let b = lagrange(x, xs.remove(p));
    let u = inverse(d % order());
    lemma_lagrange_remove(x, xs, p);
    lemma_congruent_mod(d);
    lemma_congruent_mod(z);
    lemma_congruent_mod(b);
    lemma_inverse(d % order());
    // factor * d == z * u * d == z
    lemma_congruent_mod(z * u);
    lemma_congruent_product(factor(x, z), z * u, d, d % order());
    assert((z * u) * (d % order()) == z * ((d % order()) * u)) by (nonlinear_arith);
    lemma_congruent_product(z, z, (d % order()) * u, 1);
    lemma_congruent_trans(factor(x, z) * d, z * ((d % order()) * u), z * 1);
    assert(z * 1 == z);
    // coefficient * d == b * factor * d == b * z
    lemma_congruent_product(lagrange(x, xs), b * factor(x, z), d, d);
    assert((b * factor(x, z)) * d == b * (factor(x, z) * d)) by (nonlinear_arith);
    lemma_congruent_product(b, b, factor(x, z) * d, z);
    lemma_congruent_trans(lagrange(x, xs) * d, b * (factor(x, z) * d), b * z);
}

/// The sum of the coefficients, each times a power of its point.
pub open spec fn moment(xs: Seq<int>, all: Seq<int>, k: nat) -> int {
    sum_over(xs, |x: int| lagrange(x, all) * pow(x, k))
}

proof fn lemma_separated_remove(xs: Seq<int>, p: int)
    requires
        separated(xs),
        0 <= p < xs.len(),
    ensures
        separated(xs.remove(p)),
{
    let ys = xs.remove(p);
    assert forall|i: int, j: int|
        0 <= i < ys.len() && 0 <= j < ys.len() && i != j implies #[trigger] ys[i] != #[trigger] ys[j]
        && invertible((ys[i] - ys[j]) % order()) by {
        let a = if i < p {
            i
        } else {
            i + 1
        };
        let b = if j < p {
            j
        } else {
            j + 1
        };
        assert(ys[i] == xs[a] && ys[j] == xs[b]);
    }
}

/// Consecutive moments differ by the moment without one of the points.
proof fn lemma_moment_step(xs: Seq<int>, p: int, k: nat)
    requires
        separated(xs),
        0 <= p < xs.len(),
    ensures
        congruent(
            xs[p] * moment(xs, xs, k) - moment(xs, xs, k + 1),
            xs[p] * moment(xs.remove(p), xs.remove(p), k),
        ),
{
    let z = xs[p];
    let ys = xs.remove(p);
    let f = |x: int| lagrange(x, xs) * pow(x, k);
    let g = |x: int| lagrange(x, xs) * pow(x, k + 1);
    let h = |x: int| z * (lagrange(x, xs) * pow(x, k)) + (-1) * (lagrange(x, xs) * pow(x, k + 1));
    lemma_sum_linear(xs, f, g, h, z, -1);
    assert(z * sum_over(xs, f) + (-1) * sum_over(xs, g) == z * sum_over(xs, f) - sum_over(xs, g));
    lemma_sum_remove(xs, h, p);
    assert forall|x: int| #[trigger] h(x) == (lagrange(x, xs) * (z - x)) * pow(x, k) by {
        lemma_pow_adds(x, k, 1);
        lemma_pow1(x);
        let a = lagrange(x, xs);
        let b = pow(x, k);
        assert(z * (a * b) + (-1) * (a * (b * x)) == (a * (z - x)) * b) by (nonlinear_arith);
    }
    assert(h(z) == 0) by {
        let a = lagrange(z, xs);
        let b = pow(z, k);
        assert((a * 0) * b == 0) by (nonlinear_arith);
    }
    let f2 = |x: int| lagrange(x, ys) * pow(x, k);
    let h2 = |x: int| z * (lagrange(x, ys) * pow(x, k)) + 0 * (lagrange(x, ys) * pow(x, k));
    lemma_sum_linear(ys, f2, f2, h2, z, 0);
    assert(z * sum_over(ys, f2) + 0 * sum_over(ys, f2) == z * sum_over(ys, f2));
    assert forall|i: int| 0 <= i < ys.len() implies congruent(
        h(#[trigger] ys[i]),
        h2(ys[i]),
    ) by {
        let q = if i < p {
            i
        } else {
            i + 1
        };
        let x = ys[i];
        assert(xs[q] == x && q != p);
        lemma_lagrange_difference(x, xs, p);
        let b = pow(x, k);
        lemma_congruent_mod(b);
        lemma_congruent_product(lagrange(x, xs) * (z - x), lagrange(x, ys) * z, b, b);
        let a = lagrange(x, ys);
        assert((a * z) * b == z * (a * b) + 0 * (a * b)) by (nonlinear_arith);
    }
    lemma_sum_congruent(ys, h, h2);
}

/// The coefficients add up to one, and their products with the powers of
/// their points below the number of points add up to zero.
proof fn lemma_moments(xs: Seq<int>, k: nat)
    requires
        separated(xs),
        k < xs.len(),
    ensures
        congruent(
            moment(xs, xs, k),
            if k == 0 {
                1
            } else {
                0
            },
        ),
    decreases xs.len(), k,
{
    let n = xs.len() as int;
    if n == 1 {
        lemma_pow0(xs[0]);
        assert(xs.drop_last() =~= Seq::<int>::empty());
        let f = |x: int| lagrange(x, xs) * pow(x, k);
        assert(sum_over(xs.drop_last(), f) == 0);
        assert(lagrange(xs[0], xs.drop_last()) == 1);
        assert(lagrange(xs[0], xs) == 1);
        lemma_congruent_mod(1);
    } else {
        let z = xs[n - 1];
        let w = xs[n - 2];
        if k == 0 {
            let s = moment(xs, xs, 0);
            let t = moment(xs, xs, 1);
            lemma_separated_remove(xs, n - 1);
            lemma_separated_remove(xs, n - 2);
            lemma_moments(xs.remove(n - 1), 0);
            lemma_moments(xs.remove(n - 2), 0);
            lemma_moment_step(xs, n - 1, 0);
            lemma_moment_step(xs, n - 2, 0);
            lemma_congruent_mod(z);
            lemma_congruent_mod(w);
            let mz = moment(xs.remove(n - 1), xs.remove(n - 1), 0);
            let mw = moment(xs.remove(n - 2), xs.remove(n - 2), 0);
            lemma_congruent_product(z, z, mz, 1);
            lemma_congruent_product(w, w, mw, 1);
            lemma_congruent_trans(z * s - t, z * mz, z * 1);
            lemma_congruent_trans(w * s - t, w * mw, w * 1);
            lemma_congruent_sum(z * s - t, z * 1, w * s - t, w * 1);
            let d = z - w;
            assert((z * s - t) - (w * s - t) == d * s) by (nonlinear_arith)
                requires
                    d == z - w,
            ;
            assert(congruent(d * s, d));
            let u = inverse(d % order());
            lemma_inverse(d % order());
            lemma_congruent_mod(d);
            lemma_congruent_mod(u);
            lemma_congruent_mod(s);
            lemma_congruent_product(d, d % order(), u, u);
            lemma_congruent_trans(d * u, (d % order()) * u, 1);
            lemma_congruent_product(d * s, d, u, u);
            lemma_congruent_product(d * u, 1, s, s);
            assert((d * s) * u == (d * u) * s) by (nonlinear_arith);
            lemma_congruent_sym((d * u) * s, 1 * s);
            lemma_congruent_trans(1 * s, (d * s) * u, d * u);
            lemma_congruent_trans(1 * s, d * u, 1);
            assert(1 * s == s);
        } else {
            let m = (k - 1) as nat;
            lemma_moments(xs, m);
            lemma_separated_remove(xs, n - 1);
            lemma_moments(xs.remove(n - 1), m);
            lemma_moment_step(xs, n - 1, m);
            let s = moment(xs, xs, m);
            let t = moment(xs, xs, k);
            let mz = moment(xs.remove(n - 1), xs.remove(n - 1), m);
            let one: int = if m == 0 {
                1
            } else {
                0
            };
            lemma_congruent_mod(z);
            lemma_congruent_product(z, z, mz, one);
            lemma_congruent_product(z, z, s, one);
            lemma_congruent_trans(z * s - t, z * mz, z * one);
            lemma_congruent_sum(z * s, z * one, z * s - t, z * one);
            assert((z * s) - (z * s - t) == t);
        }
    }
}

/// The sum of the coefficients, each times a power of its point and the value
/// of a polynomial there.
pub open spec fn weighted(xs: Seq<int>, all: Seq<int>, f: Seq<int>, m: nat) -> int {
    sum_over(xs, |x: int| lagrange(x, all) * (pow(x, m) * poly(f, x)))
}

proof fn lemma_weighted(xs: Seq<int>, f: Seq<int>, m: nat)
    requires
        separated(xs),
        m + f.len() <= xs.len(),
    ensures
        congruent(
            weighted(xs, xs, f, m),
            if m == 0 && f.len() > 0 {
                f[0]
            } else {
                0
            },
        ),
    decreases f.len(),
{
    if f.len() == 0 {
        let h = |x: int| lagrange(x, xs) * (pow(x, m) * poly(f, x));
        let zero = |x: int| 0int;
        assert forall|i: int| 0 <= i < xs.len() implies congruent(
            h(#[trigger] xs[i]),
            zero(xs[i]),
        ) by {
            let a = lagrange(xs[i], xs);
            let b = pow(xs[i], m);
            assert(a * (b * 0) == 0) by (nonlinear_arith);
        }
        lemma_sum_congruent(xs, h, zero);
        lemma_sum_linear(xs, zero, zero, zero, 0, 0);
        assert(0 * sum_over(xs, zero) + 0 * sum_over(xs, zero) == 0);
    } else {
        let rest = f.skip(1);
        lemma_weighted(xs, rest, m + 1);
        lemma_moments(xs, m);
        let c = f[0];
        let h = |x: int| lagrange(x, xs) * (pow(x, m) * poly(f, x));
        let a1 = |x: int| lagrange(x, xs) * pow(x, m);
        let a2 = |x: int| lagrange(x, xs) * (pow(x, m + 1) * poly(rest, x));
        let h2 = |x: int|
            c * (lagrange(x, xs) * pow(x, m)) + 1 * (lagrange(x, xs) * (pow(x, m + 1) * poly(
                rest,
                x,
            )));
        assert forall|i: int| 0 <= i < xs.len() implies congruent(
            h(#[trigger] xs[i]),
            h2(xs[i]),
        ) by {
            let x = xs[i];
            let l = lagrange(x, xs);
            let b = pow(x, m);
            let v = poly(rest, x);
            lemma_pow_adds(x, m, 1);
            lemma_pow1(x);
            lemma_congruent_mod(v * x + c);
            lemma_congruent_mod(l);
            lemma_congruent_mod(b);
            lemma_congruent_product(b, b, poly(f, x), v * x + c);
            lemma_congruent_product(l, l, b * poly(f, x), b * (v * x + c));
            assert(l * (b * (v * x + c)) == c * (l * b) + 1 * (l * ((b * x) * v)))
                by (nonlinear_arith);
        }
        lemma_sum_congruent(xs, h, h2);
        lemma_sum_linear(xs, a1, a2, h2, c, 1);
        let s = sum_over(xs, a1);
        let t = sum_over(xs, a2);
        let one: int = if m == 0 {
            1
        } else {
            0
        };
        lemma_congruent_mod(c);
        lemma_congruent_product(c, c, s, one);
        lemma_congruent_sum(c * s, c * one, t, 0);
        lemma_congruent_trans(sum_over(xs, h), c * s + 1 * t, c * one);
    }
}

/// The sum of the values of a polynomial at points, each times the
/// coefficient of its point.
pub open spec fn interpolated(xs: Seq<int>, all: Seq<int>, f: Seq<int>) -> int {
    sum_over(xs, |x: int| lagrange(x, all) * poly(f, x))
}

/// The values of a polynomial at separated points, at least as many as it has
/// coefficients, determine its constant coefficient: the Lagrange coefficients
/// combine them to it.
pub proof fn interpolation_at_zero(xs: Seq<int>, f: Seq<int>)
    requires
        separated(xs),
        0 < f.len() <= xs.len(),
    ensures
        congruent(interpolated(xs, xs, f), f[0]),
{
    lemma_weighted(xs, f, 0);
    let h = |x: int| lagrange(x, xs) * (pow(x, 0) * poly(f, x));
    let g = |x: int| lagrange(x, xs) * poly(f, x);
    assert forall|i: int| 0 <= i < xs.len() implies congruent(h(#[trigger] xs[i]), g(xs[i])) by {
        lemma_pow0(xs[i]);
        assert(h(xs[i]) == g(xs[i]));
        lemma_congruent_mod(g(xs[i]));
    }
    lemma_sum_congruent(xs, h, g);
    lemma_congruent_sym(sum_over(xs, h), sum_over(xs, g));
    lemma_congruent_trans(sum_over(xs, g), sum_over(xs, h), f[0]);
}

/// A coefficient is a scalar.
pub proof fn lemma_lagrange_range(x: int, xs: Seq<int>)
    ensures
        0 <= lagrange(x, xs) < order(),
    decreases xs.len(),
{
    if xs.len() > 0 {
        lemma_lagrange_range(x, xs.drop_last());
    }
}

/// The point itself does not count for its coefficient, wherever it stands.
pub proof fn lemma_lagrange_skip(x: int, xs: Seq<int>, p: int)
    requires
        0 <= p < xs.len(),
        xs[p] == x,
    ensures
        lagrange(x, xs) == lagrange(x, xs.remove(p)),
    decreases xs.len(),
{
    if p == xs.len() - 1 {
        assert(xs.remove(p) =~= xs.drop_last());
    } else {
        lemma_lagrange_skip(x, xs.drop_last(), p);
        assert(xs.remove(p).drop_last() =~= xs.drop_last().remove(p));
        assert(xs.remove(p).last() == xs.last());
    }
}

/// Adding a point anywhere has the effect of adding it at the end.
pub proof fn lemma_lagrange_insert(x: int, xs: Seq<int>, p: int, y: int)
    requires
        0 <= p <= xs.len(),
    ensures
        lagrange(x, xs.insert(p, y)) == lagrange(x, xs.push(y)),
{
    let with = xs.insert(p, y);
    assert(with.remove(p) =~= xs);
    assert(xs.push(y).drop_last() =~= xs);
    if y == x {
        lemma_lagrange_skip(x, with, p);
    } else {
        lemma_lagrange_remove(x, with, p);
        lemma_congruent_same(lagrange(x, with), lagrange(x, xs) * factor(x, y));
        lemma_lagrange_range(x, with);
        vstd::arithmetic::div_mod::lemma_small_mod(lagrange(x, with) as nat, order() as nat);
    }
}

} // verus!
