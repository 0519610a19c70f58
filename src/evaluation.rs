//! Multilinear polynomials in evaluation form: the values of the polynomial
//! over the boolean hypercube, indexed big-endian (the first variable is the
//! most significant bit of the index).
use crate::field::{be_bytes, fadd, fmul, fsub, FieldElement};
use vstd::arithmetic::div_mod::{lemma_fundamental_div_mod, lemma_mod_pos_bound};
use vstd::prelude::*;

verus! {

/// The values of a sequence of field elements.
pub open spec fn values_of(s: Seq<FieldElement>) -> Seq<int> {
    s.map_values(|e: FieldElement| e@)
}

/// A sequence and its values have the same length.
pub proof fn lemma_values_of_len(s: Seq<FieldElement>)
    ensures
        #[trigger] values_of(s).len() == s.len(),
{
}

/// `2` to the power `n`: the number of points of an `n`-dimensional hypercube.
pub open spec fn two_pow(n: nat) -> nat
    decreases n,
{
    if n == 0 {
        1
    } else {
        2 * two_pow((n - 1) as nat)
    }
}

/// The base-2 logarithm, rounded down (zero for zero and one).
pub open spec fn log2(n: nat) -> nat
    decreases n,
{
    if n <= 1 {
        0
    } else {
        1 + log2(n / 2)
    }
}

/// `n` is a power of two, the length of a hypercube's worth of evaluations.
pub open spec fn is_hypercube_len(n: nat) -> bool {
    n == two_pow(log2(n))
}

/// Index of the `i`-th entry whose bit of weight `h` is zero.
pub open spec fn pair_low(i: int, h: int) -> int {
    (i / h) * (2 * h) + i % h
}

/// Binding variable `var` (counted from the most significant bit) to `r`:
/// each pair `y1`, `y2` of entries that differ only in that bit gives
/// `y1 + r * (y2 - y1)`.
pub open spec fn partial_eval_spec(p: Seq<int>, var: nat, r: int) -> Seq<int> {
    let h = two_pow((log2(p.len()) - 1 - var) as nat) as int;
    Seq::new(
        p.len() / 2,
        |i: int| fadd(p[pair_low(i, h)], fmul(r, fsub(p[pair_low(i, h) + h], p[pair_low(i, h)]))),
    )
}

/// Binding the leading variables to `vals`, one after the other.
pub open spec fn bind_leading(p: Seq<int>, vals: Seq<int>) -> Seq<int>
    decreases vals.len(),
{
    if vals.len() == 0 {
        p
    } else {
        bind_leading(partial_eval_spec(p, 0, vals[0]), vals.drop_first())
    }
}

/// The value at `vals` of the polynomial with evaluations `p`; with fewer
/// values than variables, the remaining variables are taken as zero.
pub open spec fn mle_evaluate(p: Seq<int>, vals: Seq<int>) -> int {
    bind_leading(p, vals)[0]
}

/// The big-endian 32-byte encodings of `s`, concatenated.
pub open spec fn be_concat(s: Seq<int>) -> Seq<u8>
    decreases s.len(),
{
    if s.len() == 0 {
        Seq::empty()
    } else {
        be_concat(s.drop_last()) + be_bytes(s.last(), 32)
    }
}

/// All sums `b[i] + c[j]`, ordered by `i` then `j`.
pub open spec fn tensor_add_spec(b: Seq<int>, c: Seq<int>) -> Seq<int> {
    Seq::new(b.len() * c.len(), |k: int| fadd(b[k / c.len() as int], c[k % c.len() as int]))
}

/// All products `b[i] * c[j]`, ordered by `i` then `j`.
pub open spec fn tensor_mul_spec(b: Seq<int>, c: Seq<int>) -> Seq<int> {
    Seq::new(b.len() * c.len(), |k: int| fmul(b[k / c.len() as int], c[k % c.len() as int]))
}

pub proof fn lemma_two_pow_pos(n: nat)
    ensures
        two_pow(n) >= 1,
    decreases n,
{
    if n > 0 {
        lemma_two_pow_pos((n - 1) as nat);
    }
}

pub proof fn lemma_log2_two_pow(n: nat)
    ensures
        log2(two_pow(n)) == n,
    decreases n,
{
    if n > 0 {
        lemma_two_pow_pos((n - 1) as nat);
        lemma_log2_two_pow((n - 1) as nat);
        assert(two_pow(n) / 2 == two_pow((n - 1) as nat));
    }
}

pub proof fn lemma_two_pow_adds(a: nat, b: nat)
    ensures
        two_pow(a + b) == two_pow(a) * two_pow(b),
    decreases a,
{
    if a > 0 {
        lemma_two_pow_adds((a - 1) as nat, b);
        let x = two_pow((a - 1) as nat);
        let y = two_pow(b);
        assert(two_pow(a + b) == 2 * two_pow((a - 1 + b) as nat));
        assert(two_pow(a) == 2 * x);
        assert((2 * x) * y == 2 * (x * y)) by (nonlinear_arith);
        assert(two_pow((a - 1 + b) as nat) == x * y);
        assert(two_pow(a + b) == two_pow(a) * two_pow(b));
    } else {
        assert(two_pow(a) == 1);
        assert(two_pow(a + b) == two_pow(b));
    }
}

/// A hypercube length of at least two halves to a hypercube length.
pub proof fn lemma_half_hypercube(n: nat)
    requires
        is_hypercube_len(n),
        n >= 2,
    ensures
        is_hypercube_len(n / 2),
        log2(n / 2) == log2(n) - 1,
        log2(n) >= 1,
{
    let k = log2(n);
    if k == 0 {
        assert(two_pow(0) == 1);
    }
    assert(n / 2 == two_pow((k - 1) as nat));
    lemma_log2_two_pow((k - 1) as nat);
}

proof fn lemma_pair_low_bounds(i: int, h: int, q: int)
    requires
        0 <= i < q * h,
        h > 0,
        q > 0,
    ensures
        0 <= pair_low(i, h),
        pair_low(i, h) + h < 2 * q * h,
{
    lemma_fundamental_div_mod(i, h);
    lemma_mod_pos_bound(i, h);
    let a = i / h;
    let b = i % h;
    assert(a >= 0 && a < q) by (nonlinear_arith)
        requires
            i == h * a + b,
            0 <= b < h,
            0 <= i < q * h,
            h > 0,
    ;
    assert(0 <= pair_low(i, h) && pair_low(i, h) + h < 2 * q * h) by (nonlinear_arith)
        requires
            pair_low(i, h) == a * (2 * h) + b,
            0 <= b < h,
            0 <= a < q,
            h > 0,
    ;
}

pub proof fn lemma_two_pow_below_word(r: nat)
    ensures
        two_pow(r) <= usize::MAX ==> r < 64,
{
    assert(two_pow(8) == 256) by {
        reveal_with_fuel(two_pow, 9);
    }
    lemma_two_pow_adds(8, 8);
    assert(two_pow(16) == 0x1_0000);
    lemma_two_pow_adds(16, 16);
    assert(two_pow(32) == 0x1_0000_0000);
    lemma_two_pow_adds(32, 32);
    assert(two_pow(64) == 0x1_0000_0000 * 0x1_0000_0000);
    assert(two_pow(64) == 0x1_0000_0000_0000_0000);
    if r >= 64 {
        lemma_two_pow_adds(64, (r - 64) as nat);
        lemma_two_pow_pos((r - 64) as nat);
        assert(two_pow(64) * two_pow((r - 64) as nat) >= two_pow(64)) by (nonlinear_arith)
            requires two_pow((r - 64) as nat) >= 1;
    }
}

proof fn lemma_tensor_index(bi: int, ci: int, nb: int, nc: int)
    requires
        0 <= bi < nb,
        0 <= ci < nc,
    ensures
        (bi * nc + ci) / nc == bi,
        (bi * nc + ci) % nc == ci,
        bi * nc + ci < nb * nc,
{
    vstd::arithmetic::div_mod::lemma_fundamental_div_mod_converse(bi * nc + ci, nc, bi, ci);
    assert(bi * nc + ci < nb * nc) by (nonlinear_arith)
        requires 0 <= bi < nb, 0 <= ci < nc;
}

/// The base-2 logarithm of `n`, rounded down.
pub fn ilog2(n: usize) -> (r: u32)
    requires
        n >= 1,
    ensures
        r as nat == log2(n as nat),
{
    let mut m: usize = n;
    let mut r: u32 = 0;
    assert(two_pow(0) == 1);
    while m > 1
        invariant
            m >= 1,
            r + log2(m as nat) == log2(n as nat),
            m * two_pow(r as nat) <= n,
        decreases m,
    {
        proof {
            let t = two_pow(r as nat);
            assert(2 * t <= m * t) by (nonlinear_arith)
                requires m >= 2, t >= 0;
            lemma_two_pow_below_word((r + 1) as nat);
            assert((m / 2) * (2 * t) <= m * t) by (nonlinear_arith)
                requires t >= 0, m >= 0;
        }
        m = m / 2;
        r = r + 1;
    }
    r
}

/// `2` to the power `k`, for `2^k` at most `bound`.
pub(crate) fn two_pow_exec(k: usize, bound: usize) -> (r: usize)
    requires
        two_pow(k as nat) <= bound,
    ensures
        r as nat == two_pow(k as nat),
{
    let mut r: usize = 1;
    let mut i: usize = 0;
    while i < k
        invariant
            i <= k,
            r as nat == two_pow(i as nat),
            two_pow(k as nat) <= bound,
        decreases k - i,
    {
        proof {
            lemma_two_pow_adds((i + 1) as nat, (k - i - 1) as nat);
            lemma_two_pow_pos((k - i - 1) as nat);
            assert(two_pow((i + 1) as nat) <= two_pow((i + 1) as nat) * two_pow((k - i - 1) as nat))
                by (nonlinear_arith)
                requires two_pow((k - i - 1) as nat) >= 1;
        }
        r = r * 2;
        i = i + 1;
    }
    r
}

/// A copy of the elements of `s`.
pub fn copy_values(s: &[FieldElement]) -> (r: Vec<FieldElement>)
    ensures
        r@ == s@,
{
    let mut r: Vec<FieldElement> = Vec::new();
    let mut i: usize = 0;
    while i < s.len()
        invariant
            i <= s.len(),
            r@ == s@.take(i as int),
        decreases s.len() - i,
    {
        r.push(s[i]);
        i = i + 1;
        assert(r@ =~= s@.take(i as int));
    }
    assert(r@ =~= s@);
    r
}

#[derive(Debug, Clone, PartialEq)]
pub struct MultilinearPolynomialEV {
    pub evaluated_values: Vec<FieldElement>,
}

impl View for MultilinearPolynomialEV {
    type V = Seq<int>;

    open spec fn view(&self) -> Seq<int> {
        values_of(self.evaluated_values@)
    }
}

impl MultilinearPolynomialEV {
    pub fn new(evaluated_values: &[FieldElement]) -> (r: Self)
        ensures
            r.evaluated_values@ == evaluated_values@,
    {
        MultilinearPolynomialEV { evaluated_values: copy_values(evaluated_values) }
    }

    pub fn number_of_variables(&self) -> (r: u32)
        requires
            self.evaluated_values.len() >= 1,
        ensures
            r as nat == log2(self.evaluated_values.len() as nat),
    {
        ilog2(self.evaluated_values.len())
    }

    /// Binds variable `evaluating_variable` of `polynomial` to `value`; the
    /// result has half as many evaluations.
    pub fn partial_evaluate(
        polynomial: &[FieldElement],
        evaluating_variable: usize,
        value: FieldElement,
    ) -> (r: Self)
        requires
            is_hypercube_len(polynomial@.len()),
            evaluating_variable < log2(polynomial@.len()),
        ensures
            r@ == partial_eval_spec(values_of(polynomial@), evaluating_variable as nat, value@),
            r.evaluated_values.len() == polynomial.len() / 2,
    {
        let polynomial_size = polynomial.len();
        let expected_polynomial_size = polynomial_size / 2;
        let number_of_variables = ilog2(polynomial_size) as usize;
        let power = number_of_variables - 1 - evaluating_variable;
        proof {
            lemma_two_pow_adds(power as nat, (evaluating_variable + 1) as nat);
            lemma_two_pow_pos((evaluating_variable + 1) as nat);
            assert(two_pow(power as nat) <= two_pow(power as nat) * two_pow(
                (evaluating_variable + 1) as nat,
            )) by (nonlinear_arith)
                requires two_pow((evaluating_variable + 1) as nat) >= 1;
        }
        let h = two_pow_exec(power, polynomial_size);
        let ghost q = two_pow(evaluating_variable as nat) as int;
        let ghost p = values_of(polynomial@);
        proof {
            lemma_two_pow_pos(power as nat);
            lemma_two_pow_pos(evaluating_variable as nat);
            assert(two_pow((evaluating_variable + 1) as nat) == 2 * q);
            assert(polynomial_size == h * (2 * q)) by (nonlinear_arith)
                requires polynomial_size == h * two_pow((evaluating_variable + 1) as nat),
                    two_pow((evaluating_variable + 1) as nat) == 2 * q;
            assert(expected_polynomial_size == q * h) by (nonlinear_arith)
                requires polynomial_size == h * (2 * q), expected_polynomial_size == polynomial_size / 2;
        }
        let mut result_polynomial: Vec<FieldElement> = Vec::with_capacity(expected_polynomial_size);
        let mut i: usize = 0;
        while i < expected_polynomial_size
            invariant
                i <= expected_polynomial_size,
                expected_polynomial_size == q * h,
                polynomial_size == polynomial@.len(),
                expected_polynomial_size == polynomial_size / 2,
                polynomial_size == h * (2 * q),
                h > 0,
                q > 0,
                h as nat == two_pow((log2(polynomial@.len()) - 1 - evaluating_variable) as nat),
                p == values_of(polynomial@),
                result_polynomial@.len() == i,
                forall|k: int|
                    0 <= k < i ==> (#[trigger] result_polynomial@[k])@ == partial_eval_spec(
                        p,
                        evaluating_variable as nat,
                        value@,
                    )[k],
            decreases expected_polynomial_size - i,
        {
            proof {
                lemma_pair_low_bounds(i as int, h as int, q);
                assert(2 * q * h == h * (2 * q)) by (nonlinear_arith);
                assert(2 * h <= h * (2 * q)) by (nonlinear_arith)
                    requires q >= 1, h > 0;
                lemma_mod_pos_bound(i as int, h as int);
                assert((i / h) * (2 * h) <= pair_low(i as int, h as int));
            }
            let j = (i / h) * (2 * h) + i % h;
            let first_pair_value = polynomial[j];
            let second_pair_value = polynomial[j + h];
            let difference = second_pair_value.sub(&first_pair_value);
            let scaled = value.mul(&difference);
            result_polynomial.push(first_pair_value.add(&scaled));
            i = i + 1;
        }
        let r = MultilinearPolynomialEV { evaluated_values: result_polynomial };
        assert(r@ =~= partial_eval_spec(p, evaluating_variable as nat, value@));
        r
    }

    /// The value of the polynomial at `values`, binding the leading variables
    /// one after the other.
    pub fn evaluate(&self, values: &[FieldElement]) -> (r: FieldElement)
        requires
            is_hypercube_len(self.evaluated_values@.len()),
            values@.len() <= log2(self.evaluated_values@.len() as nat),
        ensures
            r@ == mle_evaluate(self@, values_of(values@)),
    {
        let ghost vals = values_of(values@);
        let ghost n = log2(self.evaluated_values@.len() as nat);
        let mut current: Vec<FieldElement> = copy_values(self.evaluated_values.as_slice());
        let mut i: usize = 0;
        assert(vals.skip(0) =~= vals);
        assert(values_of(current@) =~= self@);
        while i < values.len()
            invariant
                i <= values.len(),
                vals == values_of(values@),
                values@.len() <= n,
                is_hypercube_len(current@.len()),
                log2(current@.len()) == n - i,
                bind_leading(self@, vals) == bind_leading(values_of(current@), vals.skip(i as int)),
            decreases values.len() - i,
        {
            proof {
                lemma_half_hypercube(current@.len());
                assert(vals.skip(i as int).drop_first() =~= vals.skip(i + 1));
            }
            let next = Self::partial_evaluate(current.as_slice(), 0, values[i]);
            current = next.evaluated_values;
            i = i + 1;
        }
        proof {
            lemma_two_pow_pos(log2(current@.len()));
            assert(vals.skip(i as int) =~= Seq::<int>::empty());
        }
        current[0]
    }

    /// The big-endian encodings of the evaluations, concatenated.
    pub fn convert_to_bytes(&self) -> (r: Vec<u8>)
        ensures
            r@ == be_concat(self@),
    {
        let mut bytes: Vec<u8> = Vec::new();
        let mut i: usize = 0;
        while i < self.evaluated_values.len()
            invariant
                i <= self.evaluated_values@.len(),
                bytes@ == be_concat(self@.take(i as int)),
            decreases self.evaluated_values@.len() - i,
        {
            let mut encoded = self.evaluated_values[i].to_bytes_be();
            bytes.append(&mut encoded);
            proof {
                assert(self@.take(i + 1).drop_last() =~= self@.take(i as int));
            }
            i = i + 1;
        }
        assert(self@.take(i as int) =~= self@);
        bytes
    }

    /// Every evaluation multiplied by `scalar`.
    pub fn scalar_mul(&self, scalar: FieldElement) -> (r: Self)
        ensures
            r@ == self@.map_values(|v: int| fmul(v, scalar@)),
    {
        let mut scaled_values: Vec<FieldElement> = Vec::new();
        let mut i: usize = 0;
        while i < self.evaluated_values.len()
            invariant
                i <= self.evaluated_values@.len(),
                scaled_values@.len() == i,
                forall|k: int|
                    0 <= k < i ==> (#[trigger] scaled_values@[k])@ == fmul(self@[k], scalar@),
            decreases self.evaluated_values@.len() - i,
        {
            scaled_values.push(self.evaluated_values[i].mul(&scalar));
            i = i + 1;
        }
        let r = MultilinearPolynomialEV { evaluated_values: scaled_values };
        assert(r@ =~= self@.map_values(|v: int| fmul(v, scalar@)));
        r
    }

    /// All sums `w_b[i] + w_c[j]`: the polynomial `w_b(b) + w_c(c)` over the
    /// variables of `b` followed by those of `c`.
    pub fn polynomial_tensor_add(
        w_b: &MultilinearPolynomialEV,
        w_c: &MultilinearPolynomialEV,
    ) -> (r: MultilinearPolynomialEV)
        requires
            w_b.evaluated_values@.len() == w_c.evaluated_values@.len(),
            w_b.evaluated_values@.len() * w_c.evaluated_values@.len() <= usize::MAX,
        ensures
            r@ == tensor_add_spec(w_b@, w_c@),
    {
        let nb = w_b.evaluated_values.len();
        let nc = w_c.evaluated_values.len();
        let mut add_result: Vec<FieldElement> = Vec::new();
        let mut bi: usize = 0;
        while bi < nb
            invariant
                bi <= nb,
                nb == w_b.evaluated_values@.len(),
                nc == w_c.evaluated_values@.len(),
                nb * nc <= usize::MAX,
                add_result@.len() == bi * nc,
                forall|k: int|
                    0 <= k < bi * nc ==> (#[trigger] add_result@[k])@ == tensor_add_spec(
                        w_b@,
                        w_c@,
                    )[k],
            decreases nb - bi,
        {
            let mut ci: usize = 0;
            while ci < nc
                invariant
                    bi < nb,
                    ci <= nc,
                    nb == w_b.evaluated_values@.len(),
                    nc == w_c.evaluated_values@.len(),
                    nb * nc <= usize::MAX,
                    add_result@.len() == bi * nc + ci,
                    forall|k: int|
                        0 <= k < bi * nc + ci ==> (#[trigger] add_result@[k])@ == tensor_add_spec(
                            w_b@,
                            w_c@,
                        )[k],
                decreases nc - ci,
            {
                proof {
                    lemma_tensor_index(bi as int, ci as int, nb as int, nc as int);
                }
                add_result.push(w_b.evaluated_values[bi].add(&w_c.evaluated_values[ci]));
                ci = ci + 1;
            }
            proof {
                assert((bi + 1) * nc == bi * nc + nc) by (nonlinear_arith);
            }
            bi = bi + 1;
        }
        let r = MultilinearPolynomialEV { evaluated_values: add_result };
        assert(r@ =~= tensor_add_spec(w_b@, w_c@));
        r
    }

    /// All products `w_b[i] * w_c[j]`: the polynomial `w_b(b) * w_c(c)` over
    /// the variables of `b` followed by those of `c`.
    pub fn polynomial_tensor_mul(
        w_b: &MultilinearPolynomialEV,
        w_c: &MultilinearPolynomialEV,
    ) -> (r: MultilinearPolynomialEV)
        requires
            w_b.evaluated_values@.len() == w_c.evaluated_values@.len(),
            w_b.evaluated_values@.len() * w_c.evaluated_values@.len() <= usize::MAX,
        ensures
            r@ == tensor_mul_spec(w_b@, w_c@),
    {
        let nb = w_b.evaluated_values.len();
        let nc = w_c.evaluated_values.len();
        let mut mul_result: Vec<FieldElement> = Vec::new();
        let mut bi: usize = 0;
        while bi < nb
            invariant
                bi <= nb,
                nb == w_b.evaluated_values@.len(),
                nc == w_c.evaluated_values@.len(),
                nb * nc <= usize::MAX,
                mul_result@.len() == bi * nc,
                forall|k: int|
                    0 <= k < bi * nc ==> (#[trigger] mul_result@[k])@ == tensor_mul_spec(
                        w_b@,
                        w_c@,
                    )[k],
            decreases nb - bi,
        {
            let mut ci: usize = 0;
            while ci < nc
                invariant
                    bi < nb,
                    ci <= nc,
                    nb == w_b.evaluated_values@.len(),
                    nc == w_c.evaluated_values@.len(),
                    nb * nc <= usize::MAX,
                    mul_result@.len() == bi * nc + ci,
                    forall|k: int|
                        0 <= k < bi * nc + ci ==> (#[trigger] mul_result@[k])@ == tensor_mul_spec(
                            w_b@,
                            w_c@,
                        )[k],
                decreases nc - ci,
            {
                proof {
                    lemma_tensor_index(bi as int, ci as int, nb as int, nc as int);
                }
                mul_result.push(w_b.evaluated_values[bi].mul(&w_c.evaluated_values[ci]));
                ci = ci + 1;
            }
            proof {
                assert((bi + 1) * nc == bi * nc + nc) by (nonlinear_arith);
            }
            bi = bi + 1;
        }
        let r = MultilinearPolynomialEV { evaluated_values: mul_result };
        assert(r@ =~= tensor_mul_spec(w_b@, w_c@));
        r
    }

    /// The pointwise sum of two polynomials of the same size.
    pub fn add_polynomials(
        poly1: &MultilinearPolynomialEV,
        poly2: &MultilinearPolynomialEV,
    ) -> (r: Self)
        requires
            poly1.evaluated_values@.len() == poly2.evaluated_values@.len(),
        ensures
            r@ == Seq::new(poly1@.len(), |i: int| fadd(poly1@[i], poly2@[i])),
    {
        let mut sum_values: Vec<FieldElement> = Vec::new();
        let mut i: usize = 0;
        while i < poly1.evaluated_values.len()
            invariant
                i <= poly1.evaluated_values@.len(),
                poly1.evaluated_values@.len() == poly2.evaluated_values@.len(),
                sum_values@.len() == i,
                forall|k: int|
                    0 <= k < i ==> (#[trigger] sum_values@[k])@ == fadd(poly1@[k], poly2@[k]),
            decreases poly1.evaluated_values@.len() - i,
        {
            sum_values.push(poly1.evaluated_values[i].add(&poly2.evaluated_values[i]));
            i = i + 1;
        }
        let r = MultilinearPolynomialEV { evaluated_values: sum_values };
        assert(r@ =~= Seq::new(poly1@.len(), |i: int| fadd(poly1@[i], poly2@[i])));
        r
    }
}

} // verus!
