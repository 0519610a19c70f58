//! A product of multilinear polynomials over the same variables.
use crate::evaluation::{
    be_concat, copy_values, is_hypercube_len, log2, mle_evaluate, partial_eval_spec, values_of,
    MultilinearPolynomialEV,
};
use crate::field::{fmul, FieldElement};
use vstd::prelude::*;

verus! {

/// The evaluation tables of a list of polynomials.
pub open spec fn tables_of(ps: Seq<MultilinearPolynomialEV>) -> Seq<Seq<int>> {
    ps.map_values(|p: MultilinearPolynomialEV| p@)
}

/// A non-empty list whose polynomials all have the same number of variables.
pub open spec fn same_variable_count(ps: Seq<Seq<int>>) -> bool {
    &&& ps.len() >= 1
    &&& forall|i: int| 0 <= i < ps.len() ==> (#[trigger] ps[i]).len() >= 1
    &&& forall|i: int| 0 <= i < ps.len() ==> log2((#[trigger] ps[i]).len()) == log2(ps[0].len())
}

/// Every table of `ps` covers the hypercube of dimension `n`.
pub open spec fn all_hypercube(ps: Seq<Seq<int>>, n: nat) -> bool {
    forall|i: int| 0 <= i < ps.len() ==> (#[trigger] ps[i]).len() == crate::evaluation::two_pow(n)
}

/// The product of the values of the first `k` polynomials at `vals`.
pub open spec fn product_eval(ps: Seq<Seq<int>>, vals: Seq<int>, k: nat) -> int
    decreases k,
{
    if k == 0 {
        1
    } else {
        fmul(product_eval(ps, vals, (k - 1) as nat), mle_evaluate(ps[k - 1], vals))
    }
}

/// Entry `i` of the pointwise product of the first `k` tables (`k >= 1`).
pub open spec fn column_product(ps: Seq<Seq<int>>, i: int, k: nat) -> int
    decreases k,
{
    if k <= 1 {
        ps[0][i]
    } else {
        fmul(column_product(ps, i, (k - 1) as nat), ps[k - 1][i])
    }
}

/// The encodings of the tables of `ps`, one after the other.
pub open spec fn be_concat_tables(ps: Seq<Seq<int>>) -> Seq<u8>
    decreases ps.len(),
{
    if ps.len() == 0 {
        Seq::empty()
    } else {
        be_concat_tables(ps.drop_last()) + be_concat(ps.last())
    }
}

#[derive(Clone, Debug, PartialEq)]
pub struct ProductPolynomial {
    pub polynomials: Vec<MultilinearPolynomialEV>,
}

impl View for ProductPolynomial {
    type V = Seq<Seq<int>>;

    open spec fn view(&self) -> Seq<Seq<int>> {
        tables_of(self.polynomials@)
    }
}

impl ProductPolynomial {
    /// A product of polynomials that all have the same number of variables.
    pub fn new(polynomials: Vec<MultilinearPolynomialEV>) -> (r: Self)
        requires
            same_variable_count(tables_of(polynomials@)),
        ensures
            r.polynomials@ == polynomials@,
    {
        ProductPolynomial { polynomials }
    }

    /// The product of the factors' values at `values`.
    pub fn evaluate(&self, values: &[FieldElement]) -> (r: FieldElement)
        requires
            forall|i: int|
                0 <= i < self@.len() ==> is_hypercube_len((#[trigger] self@[i]).len())
                    && values@.len() <= log2(self@[i].len()),
        ensures
            r@ == product_eval(self@, values_of(values@), self@.len()),
    {
        let mut result = FieldElement::one();
        let mut i: usize = 0;
        while i < self.polynomials.len()
            invariant
                i <= self@.len(),
                forall|k: int|
                    0 <= k < self@.len() ==> is_hypercube_len((#[trigger] self@[k]).len())
                        && values@.len() <= log2(self@[k].len()),
                result@ == product_eval(self@, values_of(values@), i as nat),
            decreases self@.len() - i,
        {
            assert(self@[i as int] == self.polynomials@[i as int]@);
            assert(self@[i as int].len() == self.polynomials@[i as int].evaluated_values@.len());
            let e = self.polynomials[i].evaluate(values);
            result = result.mul(&e);
            i = i + 1;
        }
        result
    }

    /// Binds the same variable of every factor to `value`.
    pub fn partial_evaluate(&self, evaluating_variable: usize, value: FieldElement) -> (r: Vec<
        MultilinearPolynomialEV,
    >)
        requires
            forall|i: int|
                0 <= i < self@.len() ==> is_hypercube_len((#[trigger] self@[i]).len())
                    && evaluating_variable < log2(self@[i].len()),
        ensures
            tables_of(r@) == Seq::new(
                self@.len(),
                |i: int| partial_eval_spec(self@[i], evaluating_variable as nat, value@),
            ),
            forall|i: int|
                0 <= i < r@.len() ==> (#[trigger] r@[i]).evaluated_values@.len()
                    == self.polynomials@[i].evaluated_values@.len() / 2,
    {
        let mut evaluated_polynomials: Vec<MultilinearPolynomialEV> = Vec::new();
        let mut i: usize = 0;
        while i < self.polynomials.len()
            invariant
                i <= self@.len(),
                forall|k: int|
                    0 <= k < self@.len() ==> is_hypercube_len((#[trigger] self@[k]).len())
                        && evaluating_variable < log2(self@[k].len()),
                evaluated_polynomials@.len() == i,
                forall|k: int|
                    0 <= k < i ==> (#[trigger] evaluated_polynomials@[k])@ == partial_eval_spec(
                        self@[k],
                        evaluating_variable as nat,
                        value@,
                    ) && evaluated_polynomials@[k].evaluated_values@.len()
                        == self.polynomials@[k].evaluated_values@.len() / 2,
            decreases self@.len() - i,
        {
            assert(self@[i as int] == self.polynomials@[i as int]@);
            assert(self@[i as int].len() == self.polynomials@[i as int].evaluated_values@.len());
            let p = MultilinearPolynomialEV::partial_evaluate(
                self.polynomials[i].evaluated_values.as_slice(),
                evaluating_variable,
                value,
            );
            evaluated_polynomials.push(p);
            i = i + 1;
        }
        assert(tables_of(evaluated_polynomials@) =~= Seq::new(
            self@.len(),
            |i: int| partial_eval_spec(self@[i], evaluating_variable as nat, value@),
        ));
        evaluated_polynomials
    }

    /// Collapses the factors into one polynomial by pointwise product.
    pub fn multiply_polynomials_element_wise(&self) -> (r: MultilinearPolynomialEV)
        requires
            self@.len() > 1,
            forall|i: int| 0 <= i < self@.len() ==> (#[trigger] self@[i]).len() == self@[0].len(),
        ensures
            r@ == Seq::new(self@[0].len(), |j: int| column_product(self@, j, self@.len())),
    {
        let ghost ps = self@;
        let mut resultant_values = copy_values(self.polynomials[0].evaluated_values.as_slice());
        let n = resultant_values.len();
        assert forall|j: int| 0 <= j < n implies (#[trigger] resultant_values@[j])@ == column_product(
            ps,
            j,
            1,
        ) by {}
        let mut k: usize = 1;
        while k < self.polynomials.len()
            invariant
                1 <= k <= ps.len(),
                ps == self@,
                n == ps[0].len(),
                forall|i: int| 0 <= i < ps.len() ==> (#[trigger] ps[i]).len() == ps[0].len(),
                resultant_values@.len() == n,
                forall|j: int|
                    0 <= j < n ==> (#[trigger] resultant_values@[j])@ == column_product(
                        ps,
                        j,
                        k as nat,
                    ),
            decreases ps.len() - k,
        {
            let factor = &self.polynomials[k].evaluated_values;
            assert(ps[k as int] == self.polynomials@[k as int]@);
            assert(ps[0] == self.polynomials@[0]@);
            assert(factor@.len() == n);
            let mut next: Vec<FieldElement> = Vec::new();
            let mut j: usize = 0;
            while j < n
                invariant
                    1 <= k < ps.len(),
                    ps == self@,
                    n == ps[0].len(),
                    factor@.len() == n,
                    factor@ == self.polynomials@[k as int].evaluated_values@,
                    resultant_values@.len() == n,
                    forall|j2: int|
                        0 <= j2 < n ==> (#[trigger] resultant_values@[j2])@ == column_product(
                            ps,
                            j2,
                            k as nat,
                        ),
                    next@.len() == j,
                    j <= n,
                    forall|j2: int|
                        0 <= j2 < j ==> (#[trigger] next@[j2])@ == column_product(
                            ps,
                            j2,
                            (k + 1) as nat,
                        ),
                decreases n - j,
            {
                next.push(resultant_values[j].mul(&factor[j]));
                j = j + 1;
            }
            resultant_values = next;
            k = k + 1;
        }
        let r = MultilinearPolynomialEV { evaluated_values: resultant_values };
        assert(r@ =~= Seq::new(ps[0].len(), |j: int| column_product(ps, j, ps.len())));
        r
    }

    /// The encodings of the factors, one after the other.
    pub fn convert_to_bytes(&self) -> (r: Vec<u8>)
        ensures
            r@ == be_concat_tables(self@),
    {
        let mut bytes: Vec<u8> = Vec::new();
        let mut i: usize = 0;
        while i < self.polynomials.len()
            invariant
                i <= self@.len(),
                bytes@ == be_concat_tables(self@.take(i as int)),
            decreases self@.len() - i,
        {
            let mut encoded = self.polynomials[i].convert_to_bytes();
            bytes.append(&mut encoded);
            proof {
                assert(self@.take(i + 1).drop_last() =~= self@.take(i as int));
            }
            i = i + 1;
        }
        assert(self@.take(i as int) =~= self@);
        bytes
    }

    /// The number of factors.
    pub fn degree(&self) -> (r: usize)
        ensures
            r == self@.len(),
    {
        self.polynomials.len()
    }
}

} // verus!
