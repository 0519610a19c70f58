//! Univariate polynomials in coefficient form (index = exponent), with
//! Lagrange interpolation.
use crate::evaluation::values_of;
use crate::interpolation::{lemma_interpolation_at_samples, lemma_interpolation_length};
use crate::field::{fadd, fdiv, finv, fmul, fneg, fsub, modulus, FieldElement};
use vstd::arithmetic::div_mod::{lemma_mul_mod_noop_left, lemma_mul_mod_noop_right};
use vstd::arithmetic::power::pow;
use vstd::prelude::*;

verus! {

/// The sum of `c[i] * x^i` over the first `k` coefficients.
pub open spec fn uni_eval_prefix(c: Seq<int>, x: int, k: nat) -> int
    decreases k,
{
    if k == 0 {
        0
    } else {
        fadd(
            uni_eval_prefix(c, x, (k - 1) as nat),
            fmul(c[k - 1], pow(x, (k - 1) as nat) % modulus()),
        )
    }
}

/// The value of the polynomial with coefficients `c` at `x`.
pub open spec fn uni_eval(c: Seq<int>, x: int) -> int {
    uni_eval_prefix(c, x, c.len())
}

/// Coefficient `k` of `l * r`, over the first `rows` coefficients of `l`.
pub open spec fn convolution(l: Seq<int>, r: Seq<int>, k: int, rows: nat) -> int
    decreases rows,
{
    if rows == 0 {
        0
    } else {
        let i = rows - 1;
        let prev = convolution(l, r, k, (rows - 1) as nat);
        if 0 <= k - i < r.len() {
            fadd(prev, fmul(l[i], r[k - i]))
        } else {
            prev
        }
    }
}

/// The coefficients of the product of two polynomials.
pub open spec fn poly_mul_spec(l: Seq<int>, r: Seq<int>) -> Seq<int> {
    Seq::new((l.len() + r.len() - 1) as nat, |k: int| convolution(l, r, k, l.len()))
}

/// The coefficients of the sum of two polynomials, as long as the longer.
pub open spec fn poly_add_spec(l: Seq<int>, r: Seq<int>) -> Seq<int> {
    if l.len() > r.len() {
        Seq::new(l.len(), |e: int| if e < r.len() { fadd(l[e], r[e]) } else { l[e] })
    } else {
        Seq::new(r.len(), |e: int| if e < l.len() { fadd(r[e], l[e]) } else { r[e] })
    }
}

/// Every coefficient multiplied by `s`.
pub open spec fn poly_scale_spec(s: int, c: Seq<int>) -> Seq<int> {
    c.map_values(|v: int| fmul(s, v))
}

/// The product of `(x - set[j])` over the first `k` points that differ from
/// `focus`.
pub open spec fn basis_numerator(set: Seq<int>, focus: int, k: nat) -> Seq<int>
    decreases k,
{
    if k == 0 {
        seq![1]
    } else {
        let prev = basis_numerator(set, focus, (k - 1) as nat);
        if set[k - 1] != focus {
            poly_mul_spec(prev, seq![fneg(set[k - 1]), 1])
        } else {
            prev
        }
    }
}

/// The value of `basis_numerator` at `focus`: the product of
/// `(focus - set[j])` over the first `k` points that differ from `focus`.
pub open spec fn basis_denominator(set: Seq<int>, focus: int, k: nat) -> int
    decreases k,
{
    if k == 0 {
        1
    } else {
        let prev = basis_denominator(set, focus, (k - 1) as nat);
        if set[k - 1] != focus {
            fmul(prev, fsub(focus, set[k - 1]))
        } else {
            prev
        }
    }
}

/// The Lagrange basis polynomial of `focus` over `set`, scaled by `y`.
pub open spec fn lagrange_basis_spec(y: int, focus: int, set: Seq<int>) -> Seq<int> {
    poly_scale_spec(
        fdiv(y, basis_denominator(set, focus, set.len())),
        basis_numerator(set, focus, set.len()),
    )
}

/// The sum of the first `k` scaled basis polynomials.
pub open spec fn interpolation_prefix(xs: Seq<int>, ys: Seq<int>, k: nat) -> Seq<int>
    decreases k,
{
    if k == 0 {
        seq![0]
    } else {
        poly_add_spec(
            interpolation_prefix(xs, ys, (k - 1) as nat),
            lagrange_basis_spec(ys[k - 1], xs[k - 1], xs),
        )
    }
}

/// The interpolating polynomial of the points `(xs[i], ys[i])`.
pub open spec fn interpolation(xs: Seq<int>, ys: Seq<int>) -> Seq<int> {
    interpolation_prefix(xs, ys, xs.len())
}

/// An inverse modulo the modulus is the one `finv` names.
pub proof fn lemma_inverse_unique(d: int, w: int)
    requires
        0 <= w < modulus(),
        fmul(d, w) == 1,
    ensures
        w == finv(d),
{
    let c = finv(d);
    assert(0 <= c < modulus() && fmul(d, c) == 1);
    lemma_mul_mod_noop_right(w, d * c, modulus());
    lemma_mul_mod_noop_left(w * d, c, modulus());
    assert(w * (d * c) == (w * d) * c) by (nonlinear_arith);
    assert(w * d == d * w) by (nonlinear_arith);
    vstd::arithmetic::div_mod::lemma_small_mod(w as nat, modulus() as nat);
    vstd::arithmetic::div_mod::lemma_small_mod(c as nat, modulus() as nat);
    assert(w == (w * 1) % modulus());
    assert(c == (1 * c) % modulus());
}

/// Distinct elements have a non-zero difference.
pub proof fn lemma_sub_nonzero(a: int, b: int)
    requires
        0 <= a < modulus(),
        0 <= b < modulus(),
        a != b,
    ensures
        fsub(a, b) != 0,
{
    if a > b {
        vstd::arithmetic::div_mod::lemma_small_mod((a - b) as nat, modulus() as nat);
    } else {
        vstd::arithmetic::div_mod::lemma_fundamental_div_mod_converse(
            a - b,
            modulus(),
            -1,
            a - b + modulus(),
        );
    }
}

#[derive(Clone, Debug)]
pub struct DensedUnivariatePolynomial {
    pub coefficients: Vec<FieldElement>,
}

impl View for DensedUnivariatePolynomial {
    type V = Seq<int>;

    open spec fn view(&self) -> Seq<int> {
        values_of(self.coefficients@)
    }
}

impl DensedUnivariatePolynomial {
    pub fn new(coeffs: &[FieldElement]) -> (r: Self)
        ensures
            r.coefficients@ == coeffs@,
    {
        DensedUnivariatePolynomial { coefficients: crate::evaluation::copy_values(coeffs) }
    }

    /// The number of coefficients less one, leading zeros included.
    pub fn degree(&self) -> (r: u32)
        requires
            1 <= self.coefficients@.len() <= u32::MAX as int + 1,
        ensures
            r as int == self.coefficients@.len() - 1,
    {
        (self.coefficients.len() - 1) as u32
    }

    /// The sum of `coefficients[i] * value^i`.
    pub fn evaluate(&self, value: FieldElement) -> (r: FieldElement)
        ensures
            r@ == uni_eval(self@, value@),
    {
        let n = self.coefficients.len();
        assert(usize::MAX <= u64::MAX);
        let mut result = FieldElement::zero();
        let mut i: usize = 0;
        while i < n
            invariant
                i <= n,
                n == self@.len(),
                n <= u64::MAX,
                result@ == uni_eval_prefix(self@, value@, i as nat),
            decreases self@.len() - i,
        {
            let power = value.pow(i as u64);
            let term = self.coefficients[i].mul(&power);
            result = result.add(&term);
            i = i + 1;
        }
        result
    }

    /// The same value as `evaluate`.
    pub fn evaluate_advanced(&self, value: FieldElement) -> (r: FieldElement)
        ensures
            r@ == uni_eval(self@, value@),
    {
        let n = self.coefficients.len();
        assert(usize::MAX <= u64::MAX);
        let mut result = FieldElement::zero();
        let mut exp: usize = 0;
        while exp < n
            invariant
                exp <= n,
                n == self@.len(),
                n <= u64::MAX,
                result@ == uni_eval_prefix(self@, value@, exp as nat),
            decreases self@.len() - exp,
        {
            let term = self.coefficients[exp].mul(&value.pow(exp as u64));
            result = result.add(&term);
            exp = exp + 1;
        }
        result
    }
}

/// The product of two polynomials: the coefficient of `x^k` sums
/// `left[i] * right[j]` over `i + j == k`.
pub fn multiply_polynomials(left: Vec<FieldElement>, right: Vec<FieldElement>) -> (r: Vec<
    FieldElement,
>)
    requires
        left@.len() + right@.len() >= 1,
        left@.len() + right@.len() <= usize::MAX,
    ensures
        values_of(r@) == poly_mul_spec(values_of(left@), values_of(right@)),
{
    let ghost l = values_of(left@);
    let ghost rt = values_of(right@);
    let n = left.len() + right.len() - 1;
    let mut polynomial_product: Vec<FieldElement> = Vec::new();
    let mut k: usize = 0;
    while k < n
        invariant
            k <= n,
            polynomial_product@.len() == k,
            forall|k2: int| 0 <= k2 < k ==> (#[trigger] polynomial_product@[k2])@ == 0,
        decreases n - k,
    {
        polynomial_product.push(FieldElement::zero());
        k = k + 1;
    }
    let mut i: usize = 0;
    while i < left.len()
        invariant
            i <= left@.len(),
            n == left@.len() + right@.len() - 1,
            l == values_of(left@),
            rt == values_of(right@),
            polynomial_product@.len() == n,
            forall|k2: int|
                0 <= k2 < n ==> (#[trigger] polynomial_product@[k2])@ == convolution(
                    l,
                    rt,
                    k2,
                    i as nat,
                ),
        decreases left@.len() - i,
    {
        let mut next: Vec<FieldElement> = Vec::new();
        let mut k: usize = 0;
        while k < n
            invariant
                i < left@.len(),
                k <= n,
                n == left@.len() + right@.len() - 1,
                l == values_of(left@),
                rt == values_of(right@),
                polynomial_product@.len() == n,
                forall|k2: int|
                    0 <= k2 < n ==> (#[trigger] polynomial_product@[k2])@ == convolution(
                        l,
                        rt,
                        k2,
                        i as nat,
                    ),
                next@.len() == k,
                forall|k2: int|
                    0 <= k2 < k ==> (#[trigger] next@[k2])@ == convolution(
                        l,
                        rt,
                        k2,
                        (i + 1) as nat,
                    ),
            decreases n - k,
        {
            if i <= k && k - i < right.len() {
                let term = left[i].mul(&right[k - i]);
                next.push(polynomial_product[k].add(&term));
            } else {
                next.push(polynomial_product[k]);
            }
            k = k + 1;
        }
        polynomial_product = next;
        i = i + 1;
    }
    assert(values_of(polynomial_product@) =~= poly_mul_spec(l, rt));
    polynomial_product
}

/// The sum of two polynomials, as long as the longer one.
pub fn add_polynomials(left: Vec<FieldElement>, right: Vec<FieldElement>) -> (r: Vec<FieldElement>)
    ensures
        values_of(r@) == poly_add_spec(values_of(left@), values_of(right@)),
{
    let ghost l = values_of(left@);
    let ghost rt = values_of(right@);
    let left_longer = left.len() > right.len();
    let (larger_polynomial, smaller_polynomial) = if left_longer {
        (left, right)
    } else {
        (right, left)
    };
    let mut summed_polynomial: Vec<FieldElement> = Vec::new();
    let mut exp: usize = 0;
    while exp < larger_polynomial.len()
        invariant
            exp <= larger_polynomial@.len(),
            left_longer ==> values_of(larger_polynomial@) == l && values_of(smaller_polynomial@)
                == rt,
            !left_longer ==> values_of(larger_polynomial@) == rt && values_of(smaller_polynomial@)
                == l,
            summed_polynomial@.len() == exp,
            forall|e: int|
                0 <= e < exp ==> (#[trigger] summed_polynomial@[e])@ == poly_add_spec(l, rt)[e],
        decreases larger_polynomial@.len() - exp,
    {
        if exp < smaller_polynomial.len() {
            summed_polynomial.push(larger_polynomial[exp].add(&smaller_polynomial[exp]));
        } else {
            summed_polynomial.push(larger_polynomial[exp]);
        }
        exp = exp + 1;
    }
    assert(values_of(summed_polynomial@) =~= poly_add_spec(l, rt));
    summed_polynomial
}

/// Every coefficient multiplied by `scalar`.
fn scalar_mul(scalar: FieldElement, polynomial: Vec<FieldElement>) -> (r: Vec<FieldElement>)
    ensures
        values_of(r@) == poly_scale_spec(scalar@, values_of(polynomial@)),
{
    let mut result_polynomial: Vec<FieldElement> = Vec::new();
    let mut i: usize = 0;
    while i < polynomial.len()
        invariant
            i <= polynomial@.len(),
            result_polynomial@.len() == i,
            forall|k: int|
                0 <= k < i ==> (#[trigger] result_polynomial@[k])@ == fmul(
                    scalar@,
                    polynomial@[k]@,
                ),
        decreases polynomial@.len() - i,
    {
        result_polynomial.push(scalar.mul(&polynomial[i]));
        i = i + 1;
    }
    assert(values_of(result_polynomial@) =~= poly_scale_spec(scalar@, values_of(polynomial@)));
    result_polynomial
}

/// `y_point` times the Lagrange basis polynomial of `focus_x_point` over
/// `interpolating_set`: the product of `(x - x_j)` over the points `x_j`
/// other than the focus, divided by its value at the focus.
fn lagrange_basis(
    y_point: &FieldElement,
    focus_x_point: &FieldElement,
    interpolating_set: &[FieldElement],
) -> (r: Vec<FieldElement>)
    requires
        interpolating_set@.len() + 2 <= usize::MAX,
    ensures
        values_of(r@) == lagrange_basis_spec(y_point@, focus_x_point@, values_of(interpolating_set@)),
        fmul(
            basis_denominator(
                values_of(interpolating_set@),
                focus_x_point@,
                interpolating_set@.len(),
            ),
            finv(
                basis_denominator(
                    values_of(interpolating_set@),
                    focus_x_point@,
                    interpolating_set@.len(),
                ),
            ),
        ) == 1,
{
    let ghost set = values_of(interpolating_set@);
    let ghost f = focus_x_point@;
    let mut numerator: Vec<FieldElement> = Vec::new();
    numerator.push(FieldElement::one());
    let mut denominator = FieldElement::one();
    assert(values_of(numerator@) =~= seq![1]);
    let mut j: usize = 0;
    while j < interpolating_set.len()
        invariant
            j <= interpolating_set@.len(),
            interpolating_set@.len() + 2 <= usize::MAX,
            set == values_of(interpolating_set@),
            f == focus_x_point@,
            values_of(numerator@) == basis_numerator(set, f, j as nat),
            numerator@.len() <= j + 1,
            denominator@ == basis_denominator(set, f, j as nat),
            denominator@ != 0,
        decreases interpolating_set@.len() - j,
    {
        let x = interpolating_set[j];
        if !x.equals(focus_x_point) {
            let mut linear: Vec<FieldElement> = Vec::new();
            linear.push(x.neg());
            linear.push(FieldElement::one());
            assert(values_of(linear@) =~= seq![fneg(set[j as int]), 1]);
            numerator = multiply_polynomials(numerator, linear);
            assert(numerator@.len() == values_of(numerator@).len());
            x.in_range();
            focus_x_point.in_range();
            let difference = focus_x_point.sub(&x);
            proof {
                lemma_sub_nonzero(f, x@);
            }
            denominator = denominator.mul(&difference);
        }
        j = j + 1;
    }
    let inverse = denominator.inverse();
    let scale = match inverse {
        Some(w) => {
            w.in_range();
            proof {
                lemma_inverse_unique(denominator@, w@);
            }
            y_point.mul(&w)
        },
        None => {
            // not reached: the denominator is a product of non-zero differences
            FieldElement::zero()
        },
    };
    scalar_mul(scale, numerator)
}

impl DensedUnivariatePolynomial {
    /// The polynomial through the points `(x_values[i], y_values[i])`, summed
    /// from their scaled Lagrange basis polynomials.
    pub fn lagrange_interpolate(
        x_values: &[FieldElement],
        y_values: &[FieldElement],
    ) -> (r: DensedUnivariatePolynomial)
        requires
            y_values@.len() >= x_values@.len(),
            x_values@.len() + 2 <= usize::MAX,
            forall|i: int, j: int|
                0 <= i < j < x_values@.len() ==> (#[trigger] x_values@[i])@ != (#[trigger] x_values@[j])@,
        ensures
            r@ == interpolation(values_of(x_values@), values_of(y_values@)),
            forall|i: int|
                0 <= i < x_values@.len() ==> uni_eval(r@, (#[trigger] x_values@[i])@)
                    == y_values@[i]@,
            x_values@.len() >= 1 ==> r.coefficients@.len() == x_values@.len(),
    {
        let ghost xs = values_of(x_values@);
        let ghost ys = values_of(y_values@);
        let mut final_interpolated_polynomial: Vec<FieldElement> = Vec::new();
        final_interpolated_polynomial.push(FieldElement::zero());
        assert(values_of(final_interpolated_polynomial@) =~= seq![0]);
        let mut index: usize = 0;
        while index < x_values.len()
            invariant
                index <= x_values@.len(),
                y_values@.len() >= x_values@.len(),
                x_values@.len() + 2 <= usize::MAX,
                xs == values_of(x_values@),
                ys == values_of(y_values@),
                values_of(final_interpolated_polynomial@) == interpolation_prefix(
                    xs,
                    ys,
                    index as nat,
                ),
                forall|j: int| 0 <= j < index ==> 0 <= #[trigger] ys[j] < modulus(),
                forall|j: int|
                    0 <= j < index ==> fmul(
                        basis_denominator(xs, #[trigger] xs[j], xs.len()),
                        finv(basis_denominator(xs, xs[j], xs.len())),
                    ) == 1,
            decreases x_values@.len() - index,
        {
            y_values[index].in_range();
            let current_polynomial = lagrange_basis(&y_values[index], &x_values[index], x_values);
            final_interpolated_polynomial = add_polynomials(
                final_interpolated_polynomial,
                current_polynomial,
            );
            index = index + 1;
        }
        proof {
            assert forall|i: int| 0 <= i < x_values@.len() implies uni_eval(
                values_of(final_interpolated_polynomial@),
                (#[trigger] x_values@[i])@,
            ) == y_values@[i]@ by {
                assert forall|a: int, b: int| 0 <= a < b < xs.len() implies xs[a] != xs[b] by {
                    assert(xs[a] == x_values@[a]@ && xs[b] == x_values@[b]@);
                }
                lemma_interpolation_at_samples(xs, ys, i);
            }
            if xs.len() >= 1 {
                assert forall|a: int, b: int| 0 <= a < b < xs.len() implies xs[a] != xs[b] by {
                    assert(xs[a] == x_values@[a]@ && xs[b] == x_values@[b]@);
                }
                lemma_interpolation_length(xs, ys, xs.len());
                crate::evaluation::lemma_values_of_len(final_interpolated_polynomial@);
            }
        }
        DensedUnivariatePolynomial { coefficients: final_interpolated_polynomial }
    }
}

} // verus!
