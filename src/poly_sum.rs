//! A sum of products of multilinear polynomials: the summand of the
//! sum-check protocol.
use crate::evaluation::{
    is_hypercube_len, log2, partial_eval_spec, two_pow, values_of, MultilinearPolynomialEV,
    lemma_half_hypercube, lemma_log2_two_pow,
};
use crate::field::{fadd, FieldElement};
use crate::product_poly::{
    all_hypercube, be_concat_tables, column_product, product_eval, tables_of,
    ProductPolynomial,
};
use vstd::prelude::*;

verus! {

/// The factor tables of a list of products.
pub open spec fn products_of(qs: Seq<ProductPolynomial>) -> Seq<Seq<Seq<int>>> {
    qs.map_values(|q: ProductPolynomial| q@)
}

/// A non-empty list of non-empty products whose tables all cover the
/// hypercube of dimension `n`.
pub open spec fn sum_shape(qs: Seq<Seq<Seq<int>>>, n: nat) -> bool {
    &&& qs.len() >= 1
    &&& forall|k: int|
        0 <= k < qs.len() ==> (#[trigger] qs[k]).len() >= 1 && all_hypercube(qs[k], n)
}

/// The sum of the values of the first `k` products at `vals`.
pub open spec fn sum_eval(qs: Seq<Seq<Seq<int>>>, vals: Seq<int>, k: nat) -> int
    decreases k,
{
    if k == 0 {
        0
    } else {
        fadd(sum_eval(qs, vals, (k - 1) as nat), product_eval(qs[k - 1], vals, qs[k - 1].len()))
    }
}

/// Entry `i` of the pointwise sum of the pointwise products of the first `k`
/// products (`k >= 1`).
pub open spec fn sum_column(qs: Seq<Seq<Seq<int>>>, i: int, k: nat) -> int
    decreases k,
{
    if k <= 1 {
        column_product(qs[0], i, qs[0].len())
    } else {
        fadd(sum_column(qs, i, (k - 1) as nat), column_product(qs[k - 1], i, qs[k - 1].len()))
    }
}

/// Every table of every product with variable `var` bound to `r`.
pub open spec fn bind_sum(qs: Seq<Seq<Seq<int>>>, var: nat, r: int) -> Seq<Seq<Seq<int>>> {
    Seq::new(qs.len(), |k: int| Seq::new(qs[k].len(), |j: int| partial_eval_spec(qs[k][j], var, r)))
}

/// The encodings of all tables, product after product.
pub open spec fn be_concat_products(qs: Seq<Seq<Seq<int>>>) -> Seq<u8>
    decreases qs.len(),
{
    if qs.len() == 0 {
        Seq::empty()
    } else {
        be_concat_products(qs.drop_last()) + be_concat_tables(qs.last())
    }
}

/// Binding a variable keeps the shape, one dimension down.
pub proof fn lemma_bind_sum_shape(qs: Seq<Seq<Seq<int>>>, n: nat, var: nat, r: int)
    requires
        sum_shape(qs, n),
        var < n,
    ensures
        sum_shape(bind_sum(qs, var, r), (n - 1) as nat),
{
    let b = bind_sum(qs, var, r);
    lemma_log2_two_pow(n);
    crate::evaluation::lemma_two_pow_pos((n - 1) as nat);
    assert forall|k: int| 0 <= k < b.len() implies (#[trigger] b[k]).len() >= 1 && all_hypercube(
        b[k],
        (n - 1) as nat,
    ) by {
        assert(qs[k].len() >= 1 && all_hypercube(qs[k], n));
        assert forall|j: int| 0 <= j < b[k].len() implies (#[trigger] b[k][j]).len() == two_pow(
            (n - 1) as nat,
        ) by {
            assert(qs[k][j].len() == two_pow(n));
        }
    }
}

#[derive(Clone, Debug, PartialEq)]
pub struct SumPolynomial {
    pub product_polynomials: Vec<ProductPolynomial>,
}

impl View for SumPolynomial {
    type V = Seq<Seq<Seq<int>>>;

    open spec fn view(&self) -> Seq<Seq<Seq<int>>> {
        products_of(self.product_polynomials@)
    }
}

impl SumPolynomial {
    /// A sum of products whose polynomials all have the number of variables
    /// of the first one.
    pub fn new(product_polynomials: Vec<ProductPolynomial>) -> (r: Self)
        requires
            product_polynomials@.len() >= 1,
            product_polynomials@[0]@.len() >= 1,
            forall|k: int, j: int|
                0 <= k < product_polynomials@.len() && 0 <= j < product_polynomials@[k]@.len()
                    ==> (#[trigger] product_polynomials@[k]@[j]).len() >= 1 && log2(
                    product_polynomials@[k]@[j].len(),
                ) == log2(product_polynomials@[0]@[0].len()),
        ensures
            r.product_polynomials@ == product_polynomials@,
    {
        SumPolynomial { product_polynomials }
    }

    /// The sum of the products' values at `values`.
    pub fn evaluate(&self, values: &[FieldElement]) -> (r: FieldElement)
        requires
            forall|k: int, j: int|
                0 <= k < self@.len() && 0 <= j < self@[k].len() ==> is_hypercube_len(
                    (#[trigger] self@[k][j]).len(),
                ) && values@.len() <= log2(self@[k][j].len()),
        ensures
            r@ == sum_eval(self@, values_of(values@), self@.len()),
    {
        let mut result = FieldElement::zero();
        let mut k: usize = 0;
        while k < self.product_polynomials.len()
            invariant
                k <= self@.len(),
                forall|k2: int, j: int|
                    0 <= k2 < self@.len() && 0 <= j < self@[k2].len() ==> is_hypercube_len(
                        (#[trigger] self@[k2][j]).len(),
                    ) && values@.len() <= log2(self@[k2][j].len()),
                result@ == sum_eval(self@, values_of(values@), k as nat),
            decreases self@.len() - k,
        {
            assert(self@[k as int] == self.product_polynomials@[k as int]@);
            let e = self.product_polynomials[k].evaluate(values);
            result = result.add(&e);
            k = k + 1;
        }
        result
    }

    /// Binds the same variable of every polynomial of every product to `value`.
    pub fn partial_evaluate(&self, evaluating_variable: usize, value: FieldElement) -> (r: Self)
        requires
            exists|n: nat| sum_shape(self@, n) && evaluating_variable < n,
        ensures
            r@ == bind_sum(self@, evaluating_variable as nat, value@),
    {
        let ghost n = choose|n: nat| sum_shape(self@, n) && evaluating_variable < n;
        proof {
            lemma_log2_two_pow(n);
        }
        let mut evaluated_polynomials: Vec<ProductPolynomial> = Vec::new();
        let mut k: usize = 0;
        while k < self.product_polynomials.len()
            invariant
                k <= self@.len(),
                sum_shape(self@, n),
                evaluating_variable < n,
                log2(two_pow(n)) == n,
                evaluated_polynomials@.len() == k,
                forall|k2: int|
                    0 <= k2 < k ==> (#[trigger] evaluated_polynomials@[k2])@ == bind_sum(
                        self@,
                        evaluating_variable as nat,
                        value@,
                    )[k2],
            decreases self@.len() - k,
        {
            let ghost q = self@[k as int];
            assert(q == self.product_polynomials@[k as int]@);
            assert(q.len() >= 1 && all_hypercube(q, n));
            let factors = self.product_polynomials[k].partial_evaluate(evaluating_variable, value);
            proof {
                crate::evaluation::lemma_two_pow_pos(n);
                assert(q[0].len() == two_pow(n));
                lemma_half_hypercube(two_pow(n));
                assert(tables_of(factors@)[0] == partial_eval_spec(
                    q[0],
                    evaluating_variable as nat,
                    value@,
                ));
                assert forall|i: int| 0 <= i < tables_of(factors@).len() implies (#[trigger] tables_of(
                    factors@,
                )[i]).len() >= 1 && log2(tables_of(factors@)[i].len()) == log2(
                    tables_of(factors@)[0].len(),
                ) by {
                    assert(q[i].len() == two_pow(n));
                    assert(tables_of(factors@)[i] == partial_eval_spec(
                        q[i],
                        evaluating_variable as nat,
                        value@,
                    ));
                }
            }
            let product = ProductPolynomial::new(factors);
            proof {
                assert(product@ =~= bind_sum(self@, evaluating_variable as nat, value@)[k as int]);
            }
            evaluated_polynomials.push(product);
            k = k + 1;
        }
        let r = SumPolynomial { product_polynomials: evaluated_polynomials };
        assert(r@ =~= bind_sum(self@, evaluating_variable as nat, value@));
        r
    }

    /// Collapses the sum into one polynomial: the pointwise product of each
    /// product's factors, added pointwise across products.
    pub fn add_polynomials_element_wise(&self) -> (r: MultilinearPolynomialEV)
        requires
            self@.len() > 1,
            forall|k: int| 0 <= k < self@.len() ==> (#[trigger] self@[k]).len() > 1,
            exists|n: nat| sum_shape(self@, n),
        ensures
            r@ == Seq::new(self@[0][0].len(), |i: int| sum_column(self@, i, self@.len())),
    {
        let ghost qs = self@;
        let ghost n = choose|n: nat| sum_shape(self@, n);
        assert(qs[0].len() >= 1 && all_hypercube(qs[0], n));
        assert(qs[0] == self.product_polynomials@[0]@);
        let first_product = self.product_polynomials[0].multiply_polynomials_element_wise();
        let mut resultant_values = first_product.evaluated_values;
        let size = resultant_values.len();
        assert(first_product@.len() == first_product.evaluated_values@.len());
        assert(qs[0][0].len() == two_pow(n));
        assert(size == two_pow(n));
        assert forall|i: int| 0 <= i < size implies (#[trigger] resultant_values@[i])@ == sum_column(
            qs,
            i,
            1,
        ) by {
            assert(first_product@[i] == resultant_values@[i]@);
        }
        let mut k: usize = 1;
        while k < self.product_polynomials.len()
            invariant
                1 <= k <= qs.len(),
                qs == self@,
                sum_shape(qs, n),
                forall|k2: int| 0 <= k2 < qs.len() ==> (#[trigger] qs[k2]).len() > 1,
                size == two_pow(n),
                size == qs[0][0].len(),
                resultant_values@.len() == size,
                forall|i: int|
                    0 <= i < size ==> (#[trigger] resultant_values@[i])@ == sum_column(
                        qs,
                        i,
                        k as nat,
                    ),
            decreases qs.len() - k,
        {
            assert(qs[k as int] == self.product_polynomials@[k as int]@);
            assert(qs[k as int].len() >= 1 && all_hypercube(qs[k as int], n));
            assert(qs[k as int][0].len() == two_pow(n));
            let multiplied_poly = self.product_polynomials[k].multiply_polynomials_element_wise();
            assert(multiplied_poly@.len() == multiplied_poly.evaluated_values@.len());
            let mut next: Vec<FieldElement> = Vec::new();
            let mut i: usize = 0;
            while i < size
                invariant
                    1 <= k < qs.len(),
                    qs == self@,
                    size == qs[0][0].len(),
                    resultant_values@.len() == size,
                    multiplied_poly@ == Seq::new(
                        qs[k as int][0].len(),
                        |j: int| column_product(qs[k as int], j, qs[k as int].len()),
                    ),
                    qs[k as int][0].len() == size,
                    multiplied_poly.evaluated_values@.len() == size,
                    forall|i2: int|
                        0 <= i2 < size ==> (#[trigger] resultant_values@[i2])@ == sum_column(
                            qs,
                            i2,
                            k as nat,
                        ),
                    i <= size,
                    next@.len() == i,
                    forall|i2: int|
                        0 <= i2 < i ==> (#[trigger] next@[i2])@ == sum_column(
                            qs,
                            i2,
                            (k + 1) as nat,
                        ),
                decreases size - i,
            {
                assert(multiplied_poly@[i as int] == multiplied_poly.evaluated_values@[i as int]@);
                next.push(resultant_values[i].add(&multiplied_poly.evaluated_values[i]));
                i = i + 1;
            }
            resultant_values = next;
            k = k + 1;
        }
        let r = MultilinearPolynomialEV { evaluated_values: resultant_values };
        assert(r@ =~= Seq::new(qs[0][0].len(), |i: int| sum_column(qs, i, qs.len())));
        r
    }

    /// The encodings of all polynomials, product after product.
    pub fn convert_to_bytes(&self) -> (r: Vec<u8>)
        ensures
            r@ == be_concat_products(self@),
    {
        let mut bytes: Vec<u8> = Vec::new();
        let mut k: usize = 0;
        while k < self.product_polynomials.len()
            invariant
                k <= self@.len(),
                bytes@ == be_concat_products(self@.take(k as int)),
            decreases self@.len() - k,
        {
            let mut encoded = self.product_polynomials[k].convert_to_bytes();
            bytes.append(&mut encoded);
            proof {
                assert(self@.take(k + 1).drop_last() =~= self@.take(k as int));
            }
            k = k + 1;
        }
        assert(self@.take(k as int) =~= self@);
        bytes
    }

    /// The number of factors of the first product.
    pub fn degree(&self) -> (r: usize)
        requires
            self@.len() >= 1,
        ensures
            r == self@[0].len(),
    {
        self.product_polynomials[0].degree()
    }

    /// The number of variables of the first polynomial of the first product.
    pub fn number_of_variables(&self) -> (r: u32)
        requires
            self@.len() >= 1,
            self@[0].len() >= 1,
            self@[0][0].len() >= 1,
        ensures
            r as nat == log2(self@[0][0].len()),
    {
        assert(self@[0] == self.product_polynomials@[0]@);
        assert(self@[0][0] == self.product_polynomials@[0].polynomials@[0]@);
        self.product_polynomials[0].polynomials[0].number_of_variables()
    }
}

} // verus!
