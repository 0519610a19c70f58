//! The polynomials and claims of one GKR layer: the summand
//! `add_i(b, c) * (w(b) + w(c)) + mul_i(b, c) * (w(b) * w(c))`, the folding
//! of two claims into one by a random linear combination, and the values the
//! verifier recomputes.
use crate::circuits::circuit::{layer_variables, wiring_table, Circuit, gate_point};
use crate::circuits::gate::Operation;
use crate::evaluation::{
    bind_leading, copy_values, is_hypercube_len, log2, mle_evaluate, tensor_add_spec,
    tensor_mul_spec, two_pow, values_of, lemma_half_hypercube, lemma_log2_two_pow,
    lemma_two_pow_pos, lemma_values_of_len, MultilinearPolynomialEV,
};
use crate::field::{fadd, fmul, FieldElement};
use crate::poly_sum::SumPolynomial;
use crate::product_poly::{tables_of, ProductPolynomial};
use vstd::prelude::*;

verus! {

pub struct SumcheckChallenges {
    pub current: Vec<FieldElement>,
    pub previous: Vec<FieldElement>,
}

pub struct Evaluations {
    pub wb: FieldElement,
    pub wc: FieldElement,
    pub alpha: FieldElement,
    pub beta: FieldElement,
}

/// `add * (wb + wc) + mul * (wb * wc)`: the summand's value from the wiring
/// predicates' values and the two input values.
pub open spec fn layer_claim(add: int, mul: int, wb: int, wc: int) -> int {
    fadd(fmul(add, fadd(wb, wc)), fmul(mul, fmul(wb, wc)))
}

/// The summand of a layer's sum-check, as the tables of its two products.
pub open spec fn fbc_tables(add_i: Seq<int>, mul_i: Seq<int>, wb: Seq<int>, wc: Seq<int>) -> Seq<
    Seq<Seq<int>>,
> {
    seq![seq![add_i, tensor_add_spec(wb, wc)], seq![mul_i, tensor_mul_spec(wb, wc)]]
}

/// `alpha * t(rb, .) + beta * t(rc, .)`: a wiring table folded over the two
/// points `rb` and `rc` of its leading variables.
pub open spec fn fold_table(t: Seq<int>, rb: Seq<int>, rc: Seq<int>, alpha: int, beta: int) -> Seq<
    int,
> {
    Seq::new(
        bind_leading(t, rb).len(),
        |i: int| fadd(fmul(bind_leading(t, rb)[i], alpha), fmul(bind_leading(t, rc)[i], beta)),
    )
}

/// Binding leading variables keeps a hypercube table, one dimension per value.
pub proof fn lemma_bind_leading_shape(t: Seq<int>, vals: Seq<int>)
    requires
        is_hypercube_len(t.len()),
        vals.len() <= log2(t.len()),
    ensures
        is_hypercube_len(bind_leading(t, vals).len()),
        log2(bind_leading(t, vals).len()) == log2(t.len()) - vals.len(),
        bind_leading(t, vals).len() == two_pow((log2(t.len()) - vals.len()) as nat),
    decreases vals.len(),
{
    if vals.len() > 0 {
        lemma_half_hypercube(t.len());
        lemma_bind_leading_shape(
            crate::evaluation::partial_eval_spec(t, 0, vals[0]),
            vals.drop_first(),
        );
    }
}

/// `table` with its leading variables bound to `values`, in order.
fn bind_values(table: &Vec<FieldElement>, values: &[FieldElement]) -> (r: Vec<FieldElement>)
    requires
        is_hypercube_len(table@.len()),
        values@.len() <= log2(table@.len()),
    ensures
        values_of(r@) == bind_leading(values_of(table@), values_of(values@)),
        r@.len() == bind_leading(values_of(table@), values_of(values@)).len(),
{
    let ghost vals = values_of(values@);
    let ghost n = log2(table@.len());
    let mut current = copy_values(table.as_slice());
    let mut i: usize = 0;
    assert(vals.skip(0) =~= vals);
    assert(values_of(current@) =~= values_of(table@));
    while i < values.len()
        invariant
            i <= values.len(),
            vals == values_of(values@),
            values@.len() <= n,
            is_hypercube_len(current@.len()),
            log2(current@.len()) == n - i,
            bind_leading(values_of(table@), vals) == bind_leading(
                values_of(current@),
                vals.skip(i as int),
            ),
        decreases values.len() - i,
    {
        proof {
            lemma_half_hypercube(current@.len());
            assert(vals.skip(i as int).drop_first() =~= vals.skip(i + 1));
        }
        let next = MultilinearPolynomialEV::partial_evaluate(current.as_slice(), 0, values[i]);
        current = next.evaluated_values;
        i = i + 1;
    }
    assert(vals.skip(i as int) =~= Seq::<int>::empty());
    proof {
        lemma_values_of_len(current@);
    }
    current
}

/// The summand `add_i(b, c) * (w_b(b) + w_c(c)) + mul_i(b, c) * (w_b(b) * w_c(c))`.
pub fn compute_fbc_polynomial(
    add_i_bc: MultilinearPolynomialEV,
    mul_i_bc: MultilinearPolynomialEV,
    w_b_polynomial: &MultilinearPolynomialEV,
    w_c_polynomial: &MultilinearPolynomialEV,
) -> (r: SumPolynomial)
    requires
        w_b_polynomial@.len() == w_c_polynomial@.len(),
        w_b_polynomial@.len() * w_c_polynomial@.len() <= usize::MAX,
        add_i_bc@.len() == w_b_polynomial@.len() * w_c_polynomial@.len(),
        mul_i_bc@.len() == w_b_polynomial@.len() * w_c_polynomial@.len(),
        w_b_polynomial@.len() >= 1,
    ensures
        r@ == fbc_tables(add_i_bc@, mul_i_bc@, w_b_polynomial@, w_c_polynomial@),
{
    let add_wbc = MultilinearPolynomialEV::polynomial_tensor_add(w_b_polynomial, w_c_polynomial);
    let mul_wbc = MultilinearPolynomialEV::polynomial_tensor_mul(w_b_polynomial, w_c_polynomial);
    let ghost size = w_b_polynomial@.len() * w_c_polynomial@.len();
    assert(size >= 1) by (nonlinear_arith)
        requires size == w_b_polynomial@.len() * w_c_polynomial@.len(), w_b_polynomial@.len() >= 1,
            w_c_polynomial@.len() >= 1;
    let mut add_factors: Vec<MultilinearPolynomialEV> = Vec::new();
    add_factors.push(add_i_bc);
    add_factors.push(add_wbc);
    let mut mul_factors: Vec<MultilinearPolynomialEV> = Vec::new();
    mul_factors.push(mul_i_bc);
    mul_factors.push(mul_wbc);
    assert(tables_of(add_factors@) =~= seq![add_i_bc@, tensor_add_spec(w_b_polynomial@, w_c_polynomial@)]);
    assert(tables_of(mul_factors@) =~= seq![mul_i_bc@, tensor_mul_spec(w_b_polynomial@, w_c_polynomial@)]);
    let add_i_term = ProductPolynomial::new(add_factors);
    let mul_i_term = ProductPolynomial::new(mul_factors);
    let mut products: Vec<ProductPolynomial> = Vec::new();
    products.push(add_i_term);
    products.push(mul_i_term);
    assert(products@[0]@ == tables_of(add_factors@));
    assert(products@[1]@ == tables_of(mul_factors@));
    let r = SumPolynomial::new(products);
    assert(r@ =~= fbc_tables(add_i_bc@, mul_i_bc@, w_b_polynomial@, w_c_polynomial@));
    r
}

/// The wiring predicates with their output variables folded: each bound to
/// `rb_values` and to `rc_values`, the two combined as `alpha * (.) + beta * (.)`.
pub fn compute_new_add_i_mul_i(
    alpha: FieldElement,
    beta: FieldElement,
    add_i_abc: MultilinearPolynomialEV,
    mul_i_abc: MultilinearPolynomialEV,
    rb_values: &[FieldElement],
    rc_values: &[FieldElement],
) -> (r: (MultilinearPolynomialEV, MultilinearPolynomialEV))
    requires
        rb_values@.len() >= 1,
        rb_values@.len() == rc_values@.len(),
        is_hypercube_len(add_i_abc@.len()),
        is_hypercube_len(mul_i_abc@.len()),
        rb_values@.len() <= log2(add_i_abc@.len()),
        rb_values@.len() <= log2(mul_i_abc@.len()),
    ensures
        r.0@ == fold_table(add_i_abc@, values_of(rb_values@), values_of(rc_values@), alpha@, beta@),
        r.1@ == fold_table(mul_i_abc@, values_of(rb_values@), values_of(rc_values@), alpha@, beta@),
{
    let ghost rb = values_of(rb_values@);
    let ghost rc = values_of(rc_values@);
    let add_rb_bc = bind_values(&add_i_abc.evaluated_values, rb_values);
    let add_rc_bc = bind_values(&add_i_abc.evaluated_values, rc_values);
    let mul_rb_bc = bind_values(&mul_i_abc.evaluated_values, rb_values);
    let mul_rc_bc = bind_values(&mul_i_abc.evaluated_values, rc_values);
    proof {
        lemma_bind_leading_shape(add_i_abc@, rb);
        lemma_bind_leading_shape(add_i_abc@, rc);
        lemma_bind_leading_shape(mul_i_abc@, rb);
        lemma_bind_leading_shape(mul_i_abc@, rc);
    }
    proof {
        lemma_values_of_len(add_i_abc.evaluated_values@);
        lemma_values_of_len(mul_i_abc.evaluated_values@);
    }
    let add_rb = MultilinearPolynomialEV { evaluated_values: add_rb_bc };
    let add_rc = MultilinearPolynomialEV { evaluated_values: add_rc_bc };
    let mul_rb = MultilinearPolynomialEV { evaluated_values: mul_rb_bc };
    let mul_rc = MultilinearPolynomialEV { evaluated_values: mul_rc_bc };
    let add_rb_scaled = add_rb.scalar_mul(alpha);
    let add_rc_scaled = add_rc.scalar_mul(beta);
    let mul_rb_scaled = mul_rb.scalar_mul(alpha);
    let mul_rc_scaled = mul_rc.scalar_mul(beta);
    proof {
        lemma_values_of_len(add_rb_scaled.evaluated_values@);
        lemma_values_of_len(add_rc_scaled.evaluated_values@);
        lemma_values_of_len(mul_rb_scaled.evaluated_values@);
        lemma_values_of_len(mul_rc_scaled.evaluated_values@);
    }
    let new_add_i = MultilinearPolynomialEV::add_polynomials(&add_rb_scaled, &add_rc_scaled);
    let new_mul_i = MultilinearPolynomialEV::add_polynomials(&mul_rb_scaled, &mul_rc_scaled);
    assert(new_add_i@ =~= fold_table(add_i_abc@, rb, rc, alpha@, beta@));
    assert(new_mul_i@ =~= fold_table(mul_i_abc@, rb, rc, alpha@, beta@));
    (new_add_i, new_mul_i)
}

/// `w_b` at the first half of the challenges and `w_c` at the second half.
pub fn evaluate_wb_wc(
    wb_poly: &MultilinearPolynomialEV,
    wc_poly: &MultilinearPolynomialEV,
    sumcheck_challenges: &[FieldElement],
) -> (r: (FieldElement, FieldElement))
    requires
        is_hypercube_len(wb_poly@.len()),
        is_hypercube_len(wc_poly@.len()),
        sumcheck_challenges@.len() / 2 <= log2(wb_poly@.len()),
        sumcheck_challenges@.len() - sumcheck_challenges@.len() / 2 <= log2(wc_poly@.len()),
    ensures
        r.0@ == mle_evaluate(
            wb_poly@,
            values_of(sumcheck_challenges@).take(sumcheck_challenges@.len() as int / 2),
        ),
        r.1@ == mle_evaluate(
            wc_poly@,
            values_of(sumcheck_challenges@).skip(sumcheck_challenges@.len() as int / 2),
        ),
{
    let middle = sumcheck_challenges.len() / 2;
    let (rb_values, rc_values) = sumcheck_challenges.split_at(middle);
    assert(values_of(rb_values@) =~= values_of(sumcheck_challenges@).take(middle as int));
    assert(values_of(rc_values@) =~= values_of(sumcheck_challenges@).skip(middle as int));
    let wb_poly_evaluated = wb_poly.evaluate(rb_values);
    let wc_poly_evaluated = wc_poly.evaluate(rc_values);
    (wb_poly_evaluated, wc_poly_evaluated)
}

/// The wiring predicates' part of the output layer's claim: a layer's wiring
/// tables have `layer_variables` variables and every gate's point lies in
/// them.
pub open spec fn wiring_fits(gs: Seq<Seq<crate::circuits::gate::Gate>>, layer_index: nat) -> bool {
    &&& layer_index < gs.len()
    &&& 3 * layer_index + 2 <= usize::MAX
    &&& two_pow(layer_variables(layer_index)) <= usize::MAX
    &&& forall|j: int|
        0 <= j < gs[layer_index as int].len() ==> gate_point(
            layer_index,
            (#[trigger] gs[layer_index as int][j]).output as nat,
            gs[layer_index as int][j].left as nat,
            gs[layer_index as int][j].right as nat,
        ) < two_pow(layer_variables(layer_index))
}

/// The output layer's expected final sum-check value: the wiring predicates,
/// output variable bound to the first challenge, at the sum-check
/// challenges, combined with the two input values.
pub fn compute_verifier_initial_claim(
    circuit: &mut Circuit,
    layer_index: usize,
    initial_random_challenge: FieldElement,
    sumcheck_challenges: &[FieldElement],
    wb_evaluation: FieldElement,
    wc_evaluation: FieldElement,
) -> (r: FieldElement)
    requires
        wiring_fits(old(circuit)@, layer_index as nat),
        sumcheck_challenges@.len() < layer_variables(layer_index as nat),
    ensures
        *final(circuit) == *old(circuit),
        ({
            let size = two_pow(layer_variables(layer_index as nat));
            let gates = old(circuit)@[layer_index as int];
            let ch = values_of(sumcheck_challenges@);
            let ra = seq![initial_random_challenge@];
            r@ == layer_claim(
                mle_evaluate(
                    bind_leading(wiring_table(gates, layer_index as nat, Operation::ADD, size), ra),
                    ch,
                ),
                mle_evaluate(
                    bind_leading(wiring_table(gates, layer_index as nat, Operation::MUL, size), ra),
                    ch,
                ),
                wb_evaluation@,
                wc_evaluation@,
            )
        }),
{
    let ghost nv = layer_variables(layer_index as nat);
    let (add_i_abc, mul_i_abc) = circuit.add_i_and_mul_i_mle(layer_index);
    proof {
        lemma_log2_two_pow(nv);
        lemma_two_pow_pos(nv);
        lemma_values_of_len(add_i_abc.evaluated_values@);
        lemma_values_of_len(mul_i_abc.evaluated_values@);
    }
    let mut ra: Vec<FieldElement> = Vec::new();
    ra.push(initial_random_challenge);
    assert(values_of(ra@) =~= seq![initial_random_challenge@]);
    let add_i_bc = bind_values(&add_i_abc.evaluated_values, ra.as_slice());
    let mul_i_bc = bind_values(&mul_i_abc.evaluated_values, ra.as_slice());
    proof {
        lemma_bind_leading_shape(add_i_abc@, values_of(ra@));
        lemma_bind_leading_shape(mul_i_abc@, values_of(ra@));
    }
    proof {
        lemma_values_of_len(add_i_bc@);
        lemma_values_of_len(mul_i_bc@);
    }
    let add_bc = MultilinearPolynomialEV { evaluated_values: add_i_bc };
    let mul_bc = MultilinearPolynomialEV { evaluated_values: mul_i_bc };
    let add_i_r = add_bc.evaluate(sumcheck_challenges);
    let mul_i_r = mul_bc.evaluate(sumcheck_challenges);
    let sum = wb_evaluation.add(&wc_evaluation);
    let product = wb_evaluation.mul(&wc_evaluation);
    add_i_r.mul(&sum).add(&mul_i_r.mul(&product))
}

/// A later layer's expected final sum-check value: the folded wiring
/// predicates at the current challenges, combined with the two input values.
pub fn compute_verifier_folded_claim(
    circuit: &mut Circuit,
    layer_index: usize,
    challenges: &SumcheckChallenges,
    evals: &Evaluations,
) -> (r: FieldElement)
    requires
        wiring_fits(old(circuit)@, layer_index as nat),
        challenges.previous@.len() >= 2,
        challenges.previous@.len() % 2 == 0,
        challenges.previous@.len() / 2 <= layer_variables(layer_index as nat),
        challenges.current@.len() + challenges.previous@.len() / 2 <= layer_variables(
            layer_index as nat,
        ),
    ensures
        *final(circuit) == *old(circuit),
        ({
            let size = two_pow(layer_variables(layer_index as nat));
            let gates = old(circuit)@[layer_index as int];
            let prev = values_of(challenges.previous@);
            let rb = prev.take(prev.len() as int / 2);
            let rc = prev.skip(prev.len() as int / 2);
            let ch = values_of(challenges.current@);
            r@ == layer_claim(
                mle_evaluate(
                    fold_table(
                        wiring_table(gates, layer_index as nat, Operation::ADD, size),
                        rb,
                        rc,
                        evals.alpha@,
                        evals.beta@,
                    ),
                    ch,
                ),
                mle_evaluate(
                    fold_table(
                        wiring_table(gates, layer_index as nat, Operation::MUL, size),
                        rb,
                        rc,
                        evals.alpha@,
                        evals.beta@,
                    ),
                    ch,
                ),
                evals.wb@,
                evals.wc@,
            )
        }),
{
    let ghost nv = layer_variables(layer_index as nat);
    let half = challenges.previous.len() / 2;
    let (prev_rb, prev_rc) = challenges.previous.as_slice().split_at(half);
    assert(values_of(prev_rb@) =~= values_of(challenges.previous@).take(half as int));
    assert(values_of(prev_rc@) =~= values_of(challenges.previous@).skip(half as int));
    let (add_i_abc, mul_i_abc) = circuit.add_i_and_mul_i_mle(layer_index);
    proof {
        lemma_log2_two_pow(nv);
        lemma_two_pow_pos(nv);
        lemma_values_of_len(add_i_abc.evaluated_values@);
        lemma_values_of_len(mul_i_abc.evaluated_values@);
    }
    let (new_add_i, new_mul_i) = compute_new_add_i_mul_i(
        evals.alpha,
        evals.beta,
        add_i_abc,
        mul_i_abc,
        prev_rb,
        prev_rc,
    );
    proof {
        lemma_bind_leading_shape(add_i_abc@, values_of(prev_rb@));
        lemma_bind_leading_shape(mul_i_abc@, values_of(prev_rb@));
        lemma_values_of_len(new_add_i.evaluated_values@);
        lemma_values_of_len(new_mul_i.evaluated_values@);
    }
    let add_r = new_add_i.evaluate(challenges.current.as_slice());
    let mul_r = new_mul_i.evaluate(challenges.current.as_slice());
    let sum = evals.wb.add(&evals.wc);
    let product = evals.wb.mul(&evals.wc);
    add_r.mul(&sum).add(&mul_r.mul(&product))
}

} // verus!
