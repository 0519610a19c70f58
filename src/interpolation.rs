//! What evaluation makes of the univariate operations: sums, scalings and
//! products by a linear factor evaluate to the sum, scaling and product of
//! the values, so the Lagrange interpolant takes each sample value at its
//! sample point.
use crate::densed_uni_poly::{
    basis_denominator, basis_numerator, convolution, interpolation_prefix, lagrange_basis_spec,
    poly_add_spec, poly_mul_spec, poly_scale_spec, uni_eval, uni_eval_prefix,
};
use crate::field::{fadd, fdiv, finv, fmul, fneg, fsub, lemma_modulus_bounds, modulus};
use vstd::arithmetic::div_mod::{
    lemma_add_mod_noop, lemma_mod_twice, lemma_mul_mod_noop_general, lemma_small_mod,
};
use vstd::arithmetic::power::{lemma_pow0, lemma_pow_adds, lemma_pow1, pow};
use vstd::prelude::*;

verus! {

/// Coefficient `i` of `c`, zero past its end.
pub open spec fn coef(c: Seq<int>, i: int) -> int {
    if 0 <= i < c.len() {
        c[i]
    } else {
        0
    }
}

/// The integer sum of `g(i) * x^i` over `i < k`.
pub open spec fn series(g: spec_fn(int) -> int, x: int, k: nat) -> int
    decreases k,
{
    if k == 0 {
        0
    } else {
        series(g, x, (k - 1) as nat) + g(k - 1) * pow(x, (k - 1) as nat)
    }
}

proof fn lemma_modulus_pos()
    ensures
        modulus() > 1,
{
    lemma_modulus_bounds();
}

/// Evaluating the first `k` coefficients gives the series of any
/// coefficients congruent to them, reduced.
proof fn lemma_eval_series(c: Seq<int>, g: spec_fn(int) -> int, x: int, k: nat)
    requires
        k <= c.len(),
        forall|i: int| 0 <= i < k ==> #[trigger] (c[i] % modulus()) == g(i) % modulus(),
    ensures
        uni_eval_prefix(c, x, k) == series(g, x, k) % modulus(),
    decreases k,
{
    lemma_modulus_pos();
    let m = modulus();
    if k > 0 {
        let i = k - 1;
        lemma_eval_series(c, g, x, (k - 1) as nat);
        let prev = series(g, x, (k - 1) as nat);
        let w = pow(x, i as nat);
        lemma_mul_mod_noop_general(c[i], w, m);
        lemma_mul_mod_noop_general(g(i), w, m);
        assert((c[i] * (w % m)) % m == (g(i) * w) % m);
        lemma_add_mod_noop(prev, g(i) * w, m);
        assert(uni_eval_prefix(c, x, k) == (prev % m + (c[i] * (w % m)) % m) % m);
        assert(uni_eval_prefix(c, x, k) == (prev % m + (g(i) * w) % m) % m);
        assert(series(g, x, k) == prev + g(i) * w);
    } else {
        assert(0int % m == 0) by {
            lemma_small_mod(0, m as nat);
        }
    }
}

/// Coefficients past the end add nothing.
proof fn lemma_series_zero_tail(g: spec_fn(int) -> int, x: int, n: nat, k: nat)
    requires
        n <= k,
        forall|i: int| n <= i < k ==> #[trigger] g(i) == 0,
    ensures
        series(g, x, k) == series(g, x, n),
    decreases k,
{
    if k > n {
        lemma_series_zero_tail(g, x, n, (k - 1) as nat);
    }
}

/// The series of a sum is the sum of the series.
proof fn lemma_series_add(
    g: spec_fn(int) -> int,
    h: spec_fn(int) -> int,
    s: spec_fn(int) -> int,
    x: int,
    k: nat,
)
    requires
        forall|i: int| #[trigger] s(i) == g(i) + h(i),
    ensures
        series(s, x, k) == series(g, x, k) + series(h, x, k),
    decreases k,
{
    if k > 0 {
        lemma_series_add(g, h, s, x, (k - 1) as nat);
        let w = pow(x, (k - 1) as nat);
        assert(s(k - 1) * w == g(k - 1) * w + h(k - 1) * w) by (nonlinear_arith)
            requires s(k - 1) == g(k - 1) + h(k - 1);
    }
}

/// The series of a multiple is the multiple of the series.
proof fn lemma_series_scale(g: spec_fn(int) -> int, s: spec_fn(int) -> int, a: int, x: int, k: nat)
    requires
        forall|i: int| #[trigger] s(i) == a * g(i),
    ensures
        series(s, x, k) == a * series(g, x, k),
    decreases k,
{
    if k > 0 {
        lemma_series_scale(g, s, a, x, (k - 1) as nat);
        let w = pow(x, (k - 1) as nat);
        let p = series(g, x, (k - 1) as nat);
        assert(s(k - 1) * w == a * (g(k - 1) * w)) by (nonlinear_arith)
            requires s(k - 1) == a * g(k - 1);
        assert(a * p + a * (g(k - 1) * w) == a * (p + g(k - 1) * w)) by (nonlinear_arith);
    }
}

/// Shifting the coefficients up by one multiplies the series by `x`.
proof fn lemma_series_shift(g: spec_fn(int) -> int, s: spec_fn(int) -> int, x: int, k: nat)
    requires
        forall|i: int| #[trigger] s(i) == if i >= 1 { g(i - 1) } else { 0 },
    ensures
        series(s, x, k + 1) == x * series(g, x, k),
    decreases k,
{
    if k == 0 {
        assert(series(s, x, 1) == series(s, x, 0) + s(0) * pow(x, 0));
    } else {
        lemma_series_shift(g, s, x, (k - 1) as nat);
        let w = pow(x, (k - 1) as nat);
        lemma_pow_adds(x, 1, (k - 1) as nat);
        lemma_pow1(x);
        assert(pow(x, k) == x * w);
        let p = series(g, x, (k - 1) as nat);
        assert(series(s, x, k + 1) == series(s, x, k) + s(k as int) * pow(x, k));
        assert(x * p + g(k - 1) * (x * w) == x * (p + g(k - 1) * w)) by (nonlinear_arith);
    }
}

/// A polynomial's value is the reduced series of its coefficients.
proof fn lemma_eval_as_series(c: Seq<int>, x: int, k: nat)
    requires
        k >= c.len(),
    ensures
        uni_eval(c, x) == series(|i: int| coef(c, i), x, k) % modulus(),
{
    let cc = |i: int| coef(c, i);
    lemma_eval_series(c, cc, x, c.len());
    lemma_series_zero_tail(cc, x, c.len(), k);
}

/// The value of a sum is the sum of the values.
pub proof fn lemma_eval_add(l: Seq<int>, r: Seq<int>, x: int)
    ensures
        uni_eval(poly_add_spec(l, r), x) == fadd(uni_eval(l, x), uni_eval(r, x)),
{
    lemma_modulus_pos();
    let m = modulus();
    let sum = poly_add_spec(l, r);
    let k = sum.len();
    let cl = |i: int| coef(l, i);
    let cr = |i: int| coef(r, i);
    let cs = |i: int| coef(l, i) + coef(r, i);
    assert forall|i: int| 0 <= i < k implies #[trigger] (sum[i] % m) == cs(i) % m by {
        if i < l.len() && i < r.len() {
            lemma_mod_twice(l[i] + r[i], m);
            assert(r[i] + l[i] == l[i] + r[i]);
        }
    }
    lemma_eval_series(sum, cs, x, k);
    lemma_series_add(cl, cr, cs, x, k);
    lemma_eval_as_series(l, x, k);
    lemma_eval_as_series(r, x, k);
    lemma_add_mod_noop(series(cl, x, k), series(cr, x, k), m);
}

/// The value of a multiple is the multiple of the value.
pub proof fn lemma_eval_scale(a: int, c: Seq<int>, x: int)
    ensures
        uni_eval(poly_scale_spec(a, c), x) == fmul(a, uni_eval(c, x)),
{
    lemma_modulus_pos();
    let m = modulus();
    let scaled = poly_scale_spec(a, c);
    let cc = |i: int| coef(c, i);
    let cs = |i: int| a * coef(c, i);
    assert forall|i: int| 0 <= i < c.len() implies #[trigger] (scaled[i] % m) == cs(i) % m by {
        lemma_mod_twice(a * c[i], m);
    }
    lemma_eval_series(scaled, cs, x, c.len());
    lemma_series_scale(cc, cs, a, x, c.len());
    lemma_eval_as_series(c, x, c.len());
    lemma_mul_mod_noop_general(a, series(cc, x, c.len()), m);
}

/// The coefficients of `p * (a + X)`, before reduction.
proof fn lemma_convolution_linear(p: Seq<int>, a: int, k: int, rows: nat)
    requires
        rows <= p.len(),
    ensures
        convolution(p, seq![a, 1], k, rows) == ((if 0 <= k < rows {
            p[k] * a
        } else {
            0
        }) + (if 0 <= k - 1 < rows {
            p[k - 1]
        } else {
            0
        })) % modulus(),
    decreases rows,
{
    lemma_modulus_pos();
    let m = modulus();
    let r2 = seq![a, 1];
    if rows == 0 {
        lemma_small_mod(0, m as nat);
    } else {
        let i = rows - 1;
        lemma_convolution_linear(p, a, k, (rows - 1) as nat);
        let before = (if 0 <= k < rows - 1 {
            p[k] * a
        } else {
            0
        }) + (if 0 <= k - 1 < rows - 1 {
            p[k - 1]
        } else {
            0
        });
        let after = (if 0 <= k < rows {
            p[k] * a
        } else {
            0
        }) + (if 0 <= k - 1 < rows {
            p[k - 1]
        } else {
            0
        });
        assert(r2.len() == 2 && r2[0] == a && r2[1] == 1);
        let prev = convolution(p, r2, k, (rows - 1) as nat);
        assert(prev == before % m);
        if 0 <= k - i < 2 {
            let t = p[i] * r2[k - i];
            assert(after == before + t) by {
                if k == i {
                    assert(t == p[i] * a);
                } else {
                    assert(t == p[i] * 1);
                }
            }
            assert(convolution(p, r2, k, rows) == fadd(prev, fmul(p[i], r2[k - i])));
            lemma_add_mod_noop(before, t, m);
            lemma_mod_twice(before, m);
            lemma_mod_twice(t, m);
        } else {
            assert(after == before);
            assert(convolution(p, r2, k, rows) == prev);
        }
    }
}

/// The value of `p * (a + X)` is the value of `p` times `a + x`.
pub proof fn lemma_eval_mul_linear(p: Seq<int>, a: int, x: int)
    requires
        p.len() >= 1,
    ensures
        uni_eval(poly_mul_spec(p, seq![a, 1]), x) == fmul(fadd(a, x), uni_eval(p, x)),
{
    lemma_modulus_pos();
    let m = modulus();
    let n = p.len();
    let prod = poly_mul_spec(p, seq![a, 1]);
    assert(prod.len() == n + 1);
    let cp = |i: int| coef(p, i);
    let sh = |i: int| if i >= 1 { cp(i - 1) } else { 0 };
    let ca = |i: int| a * cp(i);
    let g = |i: int| a * cp(i) + sh(i);
    assert forall|k: int| 0 <= k < n + 1 implies #[trigger] (prod[k] % m) == g(k) % m by {
        lemma_convolution_linear(p, a, k, n);
        let t = (if 0 <= k < n {
            p[k] * a
        } else {
            0
        }) + (if 0 <= k - 1 < n {
            p[k - 1]
        } else {
            0
        });
        assert(p[k] * a == a * p[k]) by (nonlinear_arith);
        assert(t == g(k));
        lemma_mod_twice(t, m);
    }
    lemma_eval_series(prod, g, x, n + 1);
    lemma_series_add(ca, sh, g, x, n + 1);
    lemma_series_scale(cp, ca, a, x, n + 1);
    lemma_series_zero_tail(cp, x, n, n + 1);
    lemma_series_shift(cp, sh, x, n);
    let big_s = series(cp, x, n);
    lemma_eval_as_series(p, x, n);
    assert(series(g, x, n + 1) == (a + x) * big_s) by (nonlinear_arith)
        requires series(g, x, n + 1) == a * big_s + x * big_s;
    lemma_mul_mod_noop_general(a + x, big_s, m);
}

/// The product of `(x - set[j])` over the first `k` points `set[j]` that
/// differ from `focus`.
pub open spec fn diff_product(set: Seq<int>, focus: int, x: int, k: nat) -> int
    decreases k,
{
    if k == 0 {
        1
    } else {
        let prev = diff_product(set, focus, x, (k - 1) as nat);
        if set[k - 1] != focus {
            fmul(prev, fsub(x, set[k - 1]))
        } else {
            prev
        }
    }
}

proof fn lemma_numerator_len(set: Seq<int>, focus: int, k: nat)
    ensures
        basis_numerator(set, focus, k).len() >= 1,
    decreases k,
{
    if k > 0 {
        lemma_numerator_len(set, focus, (k - 1) as nat);
    }
}

/// The basis numerator evaluates to the product of the differences.
proof fn lemma_eval_numerator(set: Seq<int>, focus: int, x: int, k: nat)
    requires
        k <= set.len(),
    ensures
        uni_eval(basis_numerator(set, focus, k), x) == diff_product(set, focus, x, k),
    decreases k,
{
    lemma_modulus_pos();
    let m = modulus();
    if k == 0 {
        let one = seq![1int];
        lemma_pow0(x);
        lemma_small_mod(1, m as nat);
        lemma_small_mod(0, m as nat);
        assert(basis_numerator(set, focus, 0) == one);
        assert(one.len() == 1 && one[0] == 1);
        assert(uni_eval(one, x) == uni_eval_prefix(one, x, 1));
        assert(uni_eval_prefix(one, x, 0) == 0);
        assert(uni_eval_prefix(one, x, 1) == fadd(0, fmul(1, pow(x, 0) % m)));
        assert(pow(x, 0) % m == 1);
        assert(fmul(1, 1) == 1);
        assert(fadd(0, 1) == 1);
    } else {
        lemma_eval_numerator(set, focus, x, (k - 1) as nat);
        let s = set[k - 1];
        if s != focus {
            let prev_poly = basis_numerator(set, focus, (k - 1) as nat);
            lemma_numerator_len(set, focus, (k - 1) as nat);
            lemma_eval_mul_linear(prev_poly, fneg(s), x);
            let prev = diff_product(set, focus, x, (k - 1) as nat);
            lemma_add_mod_noop(-s, x, m);
            lemma_mod_twice(-s, m);
            lemma_add_mod_noop((-s) % m, x, m);
            assert(fadd(fneg(s), x) == fsub(x, s)) by {
                assert(-s + x == x - s);
            }
            assert(fsub(x, s) * prev == prev * fsub(x, s)) by (nonlinear_arith);
            assert(basis_numerator(set, focus, k) == poly_mul_spec(prev_poly, seq![fneg(s), 1]));
            assert(uni_eval(basis_numerator(set, focus, k), x) == fmul(fsub(x, s), prev));
        } else {
            assert(basis_numerator(set, focus, k) == basis_numerator(set, focus, (k - 1) as nat));
        }
    }
}

/// At the focus, the product of the differences is the basis denominator.
proof fn lemma_diff_product_at_focus(set: Seq<int>, focus: int, k: nat)
    requires
        k <= set.len(),
    ensures
        diff_product(set, focus, focus, k) == basis_denominator(set, focus, k),
    decreases k,
{
    if k > 0 {
        lemma_diff_product_at_focus(set, focus, (k - 1) as nat);
    }
}

/// At any point other than the focus among the first `k`, the product of
/// the differences vanishes.
proof fn lemma_diff_product_vanishes(set: Seq<int>, focus: int, j: int, k: nat)
    requires
        k <= set.len(),
        0 <= j < k,
        set[j] != focus,
    ensures
        diff_product(set, focus, set[j], k) == 0,
    decreases k,
{
    lemma_modulus_pos();
    let m = modulus();
    let x = set[j];
    let prev = diff_product(set, focus, x, (k - 1) as nat);
    if j == k - 1 {
        lemma_small_mod(0, m as nat);
        assert(fsub(x, x) == 0);
        assert(prev * 0 == 0) by (nonlinear_arith);
    } else {
        lemma_diff_product_vanishes(set, focus, j, (k - 1) as nat);
        if set[k - 1] != focus {
            assert(0 * fsub(x, set[k - 1]) == 0) by (nonlinear_arith);
            lemma_small_mod(0, m as nat);
        }
    }
}

/// The value of a scaled basis polynomial at any point.
proof fn lemma_eval_basis(y: int, focus: int, set: Seq<int>, x: int)
    ensures
        uni_eval(lagrange_basis_spec(y, focus, set), x) == fmul(
            fdiv(y, basis_denominator(set, focus, set.len())),
            diff_product(set, focus, x, set.len()),
        ),
{
    lemma_eval_scale(
        fdiv(y, basis_denominator(set, focus, set.len())),
        basis_numerator(set, focus, set.len()),
        x,
    );
    lemma_eval_numerator(set, focus, x, set.len());
}

/// The sum of the first `k` scaled basis polynomials takes value `ys[i]` at
/// `xs[i]` for `i < k` and zero at the other sample points.
proof fn lemma_interpolation_prefix_at_samples(xs: Seq<int>, ys: Seq<int>, k: nat, i: int)
    requires
        k <= xs.len(),
        xs.len() <= ys.len(),
        0 <= i < xs.len(),
        forall|a: int, b: int| 0 <= a < b < xs.len() ==> xs[a] != xs[b],
        forall|a: int| 0 <= a < xs.len() ==> 0 <= #[trigger] ys[a] < modulus(),
        forall|a: int|
            0 <= a < xs.len() ==> fmul(
                basis_denominator(xs, #[trigger] xs[a], xs.len()),
                finv(basis_denominator(xs, xs[a], xs.len())),
            ) == 1,
    ensures
        uni_eval(interpolation_prefix(xs, ys, k), xs[i]) == if i < k {
            ys[i]
        } else {
            0
        },
    decreases k,
{
    lemma_modulus_pos();
    let m = modulus();
    if k == 0 {
        let zero = seq![0int];
        lemma_small_mod(0, m as nat);
        assert(uni_eval(zero, xs[i]) == uni_eval_prefix(zero, xs[i], 1));
        assert(uni_eval_prefix(zero, xs[i], 0) == 0);
        assert(0 * (pow(xs[i], 0) % m) == 0) by (nonlinear_arith);
    } else {
        let f = xs[k - 1];
        let y = ys[k - 1];
        let d = basis_denominator(xs, f, xs.len());
        let w = finv(d);
        lemma_interpolation_prefix_at_samples(xs, ys, (k - 1) as nat, i);
        let prev = uni_eval(interpolation_prefix(xs, ys, (k - 1) as nat), xs[i]);
        lemma_eval_add(
            interpolation_prefix(xs, ys, (k - 1) as nat),
            lagrange_basis_spec(y, f, xs),
            xs[i],
        );
        lemma_eval_basis(y, f, xs, xs[i]);
        let basis_value = uni_eval(lagrange_basis_spec(y, f, xs), xs[i]);
        if i == k - 1 {
            lemma_diff_product_at_focus(xs, f, xs.len());
            assert(basis_value == fmul(fmul(y, w), d));
            lemma_mul_mod_noop_general(y * w, d, m);
            assert(y * w * d == y * (d * w)) by (nonlinear_arith);
            lemma_mul_mod_noop_general(y, d * w, m);
            assert(fmul(d, w) == 1);
            lemma_small_mod(y as nat, m as nat);
            assert(basis_value == y);
            assert(prev == 0);
            assert(fadd(prev, basis_value) == y);
        } else {
            assert(xs[i] != f) by {
                if i < k - 1 {
                    assert(xs[i] != xs[k - 1]);
                } else {
                    assert(xs[k - 1] != xs[i]);
                }
            }
            lemma_diff_product_vanishes(xs, f, i, xs.len());
            assert(fdiv(y, d) * 0 == 0) by (nonlinear_arith);
            lemma_small_mod(0, m as nat);
            assert(basis_value == 0);
            if i < k - 1 {
                lemma_small_mod(ys[i] as nat, m as nat);
            }
            lemma_small_mod(prev as nat, m as nat);
        }
    }
}

/// The Lagrange interpolant of distinct points takes every sample value at
/// its sample point.
pub proof fn lemma_interpolation_at_samples(xs: Seq<int>, ys: Seq<int>, i: int)
    requires
        xs.len() <= ys.len(),
        0 <= i < xs.len(),
        forall|a: int, b: int| 0 <= a < b < xs.len() ==> xs[a] != xs[b],
        forall|a: int| 0 <= a < xs.len() ==> 0 <= #[trigger] ys[a] < modulus(),
        forall|a: int|
            0 <= a < xs.len() ==> fmul(
                basis_denominator(xs, #[trigger] xs[a], xs.len()),
                finv(basis_denominator(xs, xs[a], xs.len())),
            ) == 1,
    ensures
        uni_eval(crate::densed_uni_poly::interpolation(xs, ys), xs[i]) == ys[i],
{
    lemma_interpolation_prefix_at_samples(xs, ys, xs.len(), i);
}

/// The numerator of the basis polynomial of `set[i]` over the first `k`
/// points has one coefficient per point other than `set[i]`, and one more.
proof fn lemma_numerator_length(set: Seq<int>, i: int, k: nat)
    requires
        k <= set.len(),
        0 <= i < set.len(),
        forall|a: int, b: int| 0 <= a < b < set.len() ==> set[a] != set[b],
    ensures
        basis_numerator(set, set[i], k).len() == 1 + k - if i < k {
            1int
        } else {
            0
        },
    decreases k,
{
    if k > 0 {
        lemma_numerator_length(set, i, (k - 1) as nat);
        if k - 1 != i {
            assert(set[k - 1] != set[i]) by {
                if k - 1 < i {
                    assert(set[k - 1] != set[i]);
                } else {
                    assert(set[i] != set[k - 1]);
                }
            }
        }
    }
}

/// The interpolant of `k >= 1` distinct points has `k` coefficients.
pub proof fn lemma_interpolation_length(xs: Seq<int>, ys: Seq<int>, k: nat)
    requires
        1 <= xs.len(),
        k <= xs.len(),
        forall|a: int, b: int| 0 <= a < b < xs.len() ==> xs[a] != xs[b],
    ensures
        interpolation_prefix(xs, ys, k).len() == if k == 0 {
            1
        } else {
            xs.len() as int
        },
    decreases k,
{
    if k > 0 {
        lemma_interpolation_length(xs, ys, (k - 1) as nat);
        lemma_numerator_length(xs, k - 1, xs.len());
    }
}

} // verus!
