//! The GKR protocol: the prover and the verifier of a circuit's output.
use crate::circuits::circuit::{
    circuit_fits, layer_values, layer_variables, wiring_table, Circuit, CircuitEvaluationResult,
};
use crate::circuits::gate::{Gate, Operation};
use crate::evaluation::{
    be_concat, bind_leading, copy_values, ilog2, is_hypercube_len, log2, mle_evaluate,
    partial_eval_spec, two_pow, two_pow_exec, values_of, lemma_log2_two_pow,
    lemma_two_pow_adds, lemma_two_pow_pos, lemma_values_of_len, MultilinearPolynomialEV,
};
use crate::field::{be_bytes, fadd, fmul, le_value, modulus, FieldElement};
use crate::poly_sum::sum_shape;
use crate::product_poly::all_hypercube;
use crate::sum_check::{
    expected_sum, field_element_to_bytes, prove as sumcheck_prove, provable_shape, round_challenge,
    round_consistent, round_state, rounds_of, sumcheck_end, sumcheck_proof_of, sumcheck_start,
    verify as sumcheck_verify,
    SumcheckProverProof,
};
use crate::transcript::{keccak256_of, Transcript};
use crate::wb_bc_utility::{
    compute_fbc_polynomial, compute_new_add_i_mul_i, compute_verifier_folded_claim,
    compute_verifier_initial_claim, evaluate_wb_wc, fold_table, layer_claim,
    fbc_tables, lemma_bind_leading_shape, wiring_fits, Evaluations, SumcheckChallenges,
};
use vstd::prelude::*;

verus! {

#[derive(Clone, Debug)]
pub struct Proof {
    pub circuit_output: Vec<FieldElement>,
    pub claimed_sum: FieldElement,
    pub sumcheck_proofs: Vec<SumcheckProverProof>,
    pub wb_evaluations: Vec<FieldElement>,
    pub wc_evaluations: Vec<FieldElement>,
}

/// The output values as a multilinear table: a single output is padded with
/// a zero, as a table needs at least one variable.
pub open spec fn padded_output(v: Seq<int>) -> Seq<int> {
    if v.len() == 1 {
        v.push(0)
    } else {
        v
    }
}

/// The first challenge: drawn from a fresh transcript that absorbed the
/// output table.
pub open spec fn output_challenge(w0: Seq<int>) -> int {
    le_value(keccak256_of(be_concat(w0))) % modulus()
}

/// A circuit the protocol runs on with this input: layer `k` (counted from
/// the output, the input being layer `L`) has `2^k` values, the output one
/// or two, and every gate's point lies in its layer's wiring tables.
pub open spec fn gkr_shape(gs: Seq<Seq<Gate>>, input: Seq<int>) -> bool {
    &&& gs.len() >= 1
    &&& circuit_fits(gs, input)
    &&& layer_values(gs, input, 0).len() <= 2
    &&& forall|k: nat|
        1 <= k <= gs.len() ==> (#[trigger] layer_values(gs, input, k)).len() == two_pow(k)
    &&& forall|k: nat| k < gs.len() ==> #[trigger] wiring_fits(gs, k)
}

proof fn lemma_two_pow_monotone(a: nat, b: nat)
    requires
        a <= b,
    ensures
        two_pow(a) <= two_pow(b),
{
    lemma_two_pow_adds(a, (b - a) as nat);
    lemma_two_pow_pos((b - a) as nat);
    lemma_two_pow_pos(a);
    assert(two_pow(a) <= two_pow(a) * two_pow((b - a) as nat)) by (nonlinear_arith)
        requires two_pow((b - a) as nat) >= 1;
}



/// The summand of layer `i`'s sum-check: its wiring predicates, with the
/// output variables bound to the first challenge `ra` (output layer) or
/// folded over the points `rb`, `rc` with `alpha`, `beta` (later layers),
/// combined with the values of the layer below.
pub open spec fn layer_summand(
    gs: Seq<Seq<Gate>>,
    inp: Seq<int>,
    i: nat,
    ra: int,
    rb: Seq<int>,
    rc: Seq<int>,
    alpha: int,
    beta: int,
) -> Seq<Seq<Seq<int>>> {
    let size = two_pow(layer_variables(i));
    let add = wiring_table(gs[i as int], i, Operation::ADD, size);
    let mul = wiring_table(gs[i as int], i, Operation::MUL, size);
    let w = layer_values(gs, inp, i + 1);
    if i == 0 {
        fbc_tables(partial_eval_spec(add, 0, ra), partial_eval_spec(mul, 0, ra), w, w)
    } else {
        fbc_tables(
            fold_table(add, rb, rc, alpha, beta),
            fold_table(mul, rb, rc, alpha, beta),
            w,
            w,
        )
    }
}


/// The prover's transcript input when it starts layer `i`: from `t` (the
/// input after the first challenge), each earlier layer's sum-check, then the
/// absorption of its two values `wbs[j]`, `wcs[j]` with a challenge after each.
pub open spec fn prover_transcript(
    proofs: Seq<SumcheckProverProof>,
    wbs: Seq<int>,
    wcs: Seq<int>,
    t: Seq<u8>,
    i: nat,
) -> Seq<u8>
    decreases i,
{
    if i == 0 {
        t
    } else {
        let e = sumcheck_end(prover_transcript(proofs, wbs, wcs, t, (i - 1) as nat), proofs[i - 1]);
        state_after(state_after(e, wbs[i - 1]), wcs[i - 1])
    }
}

/// The `alpha` that folds the two claims on layer `i` (`i >= 1`).
pub open spec fn fold_alpha(
    proofs: Seq<SumcheckProverProof>,
    wbs: Seq<int>,
    wcs: Seq<int>,
    t: Seq<u8>,
    i: nat,
) -> int {
    challenge_after(
        sumcheck_end(prover_transcript(proofs, wbs, wcs, t, (i - 1) as nat), proofs[i - 1]),
        wbs[i - 1],
    )
}

/// The `beta` that folds the two claims on layer `i` (`i >= 1`).
pub open spec fn fold_beta(
    proofs: Seq<SumcheckProverProof>,
    wbs: Seq<int>,
    wcs: Seq<int>,
    t: Seq<u8>,
    i: nat,
) -> int {
    challenge_after(
        state_after(
            sumcheck_end(prover_transcript(proofs, wbs, wcs, t, (i - 1) as nat), proofs[i - 1]),
            wbs[i - 1],
        ),
        wcs[i - 1],
    )
}

/// Layer `i`'s sum-check proof is the prover's: run on the layer's summand
/// (`layer_summand`) from the transcript where the prover starts the layer,
/// on the claim `c0` (output layer) or `alpha * wb + beta * wc` of the layer
/// above's values and folding challenges (later layers), with the layer
/// above's challenges split in halves as the two points.
pub open spec fn layer_proved(
    gs: Seq<Seq<Gate>>,
    inp: Seq<int>,
    proofs: Seq<SumcheckProverProof>,
    wbs: Seq<int>,
    wcs: Seq<int>,
    t: Seq<u8>,
    ra: int,
    c0: int,
    i: nat,
) -> bool {
    let tt = prover_transcript(proofs, wbs, wcs, t, i);
    if i == 0 {
        sumcheck_proof_of(
            layer_summand(gs, inp, 0, ra, Seq::empty(), Seq::empty(), 0, 0),
            c0,
            tt,
            proofs[0],
        )
    } else {
        let prs = values_of(proofs[i - 1].random_challenges@);
        let alpha = fold_alpha(proofs, wbs, wcs, t, i);
        let beta = fold_beta(proofs, wbs, wcs, t, i);
        sumcheck_proof_of(
            layer_summand(
                gs,
                inp,
                i,
                ra,
                prs.take(prs.len() as int / 2),
                prs.skip(prs.len() as int / 2),
                alpha,
                beta,
            ),
            fadd(fmul(alpha, wbs[i - 1]), fmul(beta, wcs[i - 1])),
            tt,
            proofs[i as int],
        )
    }
}

proof fn lemma_prover_transcript_frame(
    p1: Seq<SumcheckProverProof>,
    p2: Seq<SumcheckProverProof>,
    wb1: Seq<int>,
    wb2: Seq<int>,
    wc1: Seq<int>,
    wc2: Seq<int>,
    t: Seq<u8>,
    i: nat,
)
    requires
        forall|j: int| 0 <= j < i ==> p1[j] == p2[j] && wb1[j] == wb2[j] && wc1[j] == wc2[j],
    ensures
        prover_transcript(p1, wb1, wc1, t, i) == prover_transcript(p2, wb2, wc2, t, i),
    decreases i,
{
    if i > 0 {
        lemma_prover_transcript_frame(p1, p2, wb1, wb2, wc1, wc2, t, (i - 1) as nat);
    }
}

proof fn lemma_layer_proved_frame(
    gs: Seq<Seq<Gate>>,
    inp: Seq<int>,
    p1: Seq<SumcheckProverProof>,
    p2: Seq<SumcheckProverProof>,
    wb1: Seq<int>,
    wb2: Seq<int>,
    wc1: Seq<int>,
    wc2: Seq<int>,
    t: Seq<u8>,
    ra: int,
    c0: int,
    i: nat,
)
    requires
        forall|j: int| 0 <= j <= i ==> p1[j] == p2[j],
        forall|j: int| 0 <= j < i ==> wb1[j] == wb2[j] && wc1[j] == wc2[j],
    ensures
        layer_proved(gs, inp, p1, wb1, wc1, t, ra, c0, i) == layer_proved(
            gs,
            inp,
            p2,
            wb2,
            wc2,
            t,
            ra,
            c0,
            i,
        ),
{
    lemma_prover_transcript_frame(p1, p2, wb1, wb2, wc1, wc2, t, i);
    if i > 0 {
        lemma_prover_transcript_frame(p1, p2, wb1, wb2, wc1, wc2, t, (i - 1) as nat);
    }
}

/// One prover layer keeps every layer proof so far the prover's.
proof fn lemma_prover_step(
    gs: Seq<Seq<Gate>>,
    inp: Seq<int>,
    t: Seq<u8>,
    ra: int,
    c0: int,
    old_p: Seq<SumcheckProverProof>,
    old_wb: Seq<int>,
    old_wc: Seq<int>,
    new_p: Seq<SumcheckProverProof>,
    new_wb: Seq<int>,
    new_wc: Seq<int>,
    sp: SumcheckProverProof,
    tt: Seq<u8>,
    claim: int,
    rb: Seq<int>,
    rc: Seq<int>,
    alpha: int,
    beta: int,
    li: nat,
)
    requires
        old_p.len() == li,
        new_p == old_p.push(sp),
        old_wb.len() == li,
        old_wc.len() == li,
        new_wb.len() >= li,
        new_wc.len() >= li,
        forall|j: int| 0 <= j < li ==> new_wb[j] == old_wb[j] && new_wc[j] == old_wc[j],
        forall|j: nat| j < li ==> #[trigger] layer_proved(gs, inp, old_p, old_wb, old_wc, t, ra, c0, j),
        prover_transcript(old_p, old_wb, old_wc, t, li) == tt,
        li == 0 ==> claim == c0,
        li >= 1 ==> {
            let prs = values_of(old_p[li - 1].random_challenges@);
            &&& alpha == fold_alpha(old_p, old_wb, old_wc, t, li)
            &&& beta == fold_beta(old_p, old_wb, old_wc, t, li)
            &&& claim == fadd(fmul(alpha, old_wb[li - 1]), fmul(beta, old_wc[li - 1]))
            &&& rb == prs.take(prs.len() as int / 2)
            &&& rc == prs.skip(prs.len() as int / 2)
        },
        sumcheck_proof_of(layer_summand(gs, inp, li, ra, rb, rc, alpha, beta), claim, tt, sp),
    ensures
        forall|j: nat| j <= li ==> #[trigger] layer_proved(gs, inp, new_p, new_wb, new_wc, t, ra, c0, j),
        prover_transcript(new_p, new_wb, new_wc, t, li) == tt,
{
    assert forall|j: nat| j <= li implies #[trigger] layer_proved(
        gs,
        inp,
        new_p,
        new_wb,
        new_wc,
        t,
        ra,
        c0,
        j,
    ) by {
        if j < li {
            lemma_layer_proved_frame(
                gs,
                inp,
                old_p,
                new_p,
                old_wb,
                new_wb,
                old_wc,
                new_wc,
                t,
                ra,
                c0,
                j,
            );
        } else {
            lemma_prover_transcript_frame(old_p, new_p, old_wb, new_wb, old_wc, new_wc, t, li);
            if li >= 1 {
                lemma_prover_transcript_frame(
                    old_p,
                    new_p,
                    old_wb,
                    new_wb,
                    old_wc,
                    new_wc,
                    t,
                    (li - 1) as nat,
                );
            }
            assert(new_p[li as int] == sp);
        }
    }
    lemma_prover_transcript_frame(old_p, new_p, old_wb, new_wb, old_wc, new_wc, t, li);
}


/// The prover's loop after `li` of `n` layers: those layers' proofs are the
/// prover's, and the transcript, claim, folding challenges and points are
/// those layer `li` starts from.
#[verifier::opaque]
spec fn prover_progress(
    gs: Seq<Seq<Gate>>,
    inp: Seq<int>,
    proofs: Seq<SumcheckProverProof>,
    wbs: Seq<int>,
    wcs: Seq<int>,
    t: Seq<u8>,
    ra: int,
    c0: int,
    li: nat,
    n: nat,
    tr: Seq<u8>,
    claim: int,
    alpha: int,
    beta: int,
    rb: Seq<int>,
    rc: Seq<int>,
) -> bool {
    &&& forall|j: nat| j < li ==> #[trigger] layer_proved(gs, inp, proofs, wbs, wcs, t, ra, c0, j)
    &&& li < n ==> {
        &&& proofs.len() == li
        &&& wbs.len() == li
        &&& wcs.len() == li
        &&& tr == prover_transcript(proofs, wbs, wcs, t, li)
    }
    &&& li == 0 ==> claim == c0
    &&& 1 <= li < n ==> {
        let prs = values_of(proofs[li - 1].random_challenges@);
        &&& alpha == fold_alpha(proofs, wbs, wcs, t, li)
        &&& beta == fold_beta(proofs, wbs, wcs, t, li)
        &&& claim == fadd(fmul(alpha, wbs[li - 1]), fmul(beta, wcs[li - 1]))
        &&& rb == prs.take(prs.len() as int / 2)
        &&& rc == prs.skip(prs.len() as int / 2)
    }
}

proof fn lemma_progress_start(
    gs: Seq<Seq<Gate>>,
    inp: Seq<int>,
    t: Seq<u8>,
    ra: int,
    c0: int,
    n: nat,
    claim: int,
    alpha: int,
    beta: int,
    rb: Seq<int>,
    rc: Seq<int>,
)
    requires
        claim == c0,
    ensures
        prover_progress(
            gs,
            inp,
            Seq::empty(),
            Seq::empty(),
            Seq::empty(),
            t,
            ra,
            c0,
            0,
            n,
            t,
            claim,
            alpha,
            beta,
            rb,
            rc,
        ),
{
    reveal(prover_progress);
}

proof fn lemma_progress_done(
    gs: Seq<Seq<Gate>>,
    inp: Seq<int>,
    proofs: Seq<SumcheckProverProof>,
    wbs: Seq<int>,
    wcs: Seq<int>,
    t: Seq<u8>,
    ra: int,
    c0: int,
    n: nat,
    tr: Seq<u8>,
    claim: int,
    alpha: int,
    beta: int,
    rb: Seq<int>,
    rc: Seq<int>,
)
    requires
        prover_progress(gs, inp, proofs, wbs, wcs, t, ra, c0, n, n, tr, claim, alpha, beta, rb, rc),
    ensures
        forall|j: nat| j < n ==> #[trigger] layer_proved(gs, inp, proofs, wbs, wcs, t, ra, c0, j),
{
    reveal(prover_progress);
}

/// One layer of the prover's loop: the layer's sum-check proof `sp`, then,
/// but for the last layer, the two values of the layer below absorbed with a
/// challenge after each.
proof fn lemma_progress_step(
    gs: Seq<Seq<Gate>>,
    inp: Seq<int>,
    t: Seq<u8>,
    ra: int,
    c0: int,
    old_p: Seq<SumcheckProverProof>,
    old_wb: Seq<int>,
    old_wc: Seq<int>,
    new_p: Seq<SumcheckProverProof>,
    new_wb: Seq<int>,
    new_wc: Seq<int>,
    sp: SumcheckProverProof,
    li: nat,
    n: nat,
    tt: Seq<u8>,
    claim: int,
    alpha: int,
    beta: int,
    rb: Seq<int>,
    rc: Seq<int>,
    tr2: Seq<u8>,
    claim2: int,
    alpha2: int,
    beta2: int,
    rb2: Seq<int>,
    rc2: Seq<int>,
)
    requires
        li < n,
        prover_progress(gs, inp, old_p, old_wb, old_wc, t, ra, c0, li, n, tt, claim, alpha, beta, rb, rc),
        sumcheck_proof_of(layer_summand(gs, inp, li, ra, rb, rc, alpha, beta), claim, tt, sp),
        new_p == old_p.push(sp),
        li + 1 == n ==> new_wb == old_wb && new_wc == old_wc,
        li + 1 < n ==> {
            let e = sumcheck_end(tt, sp);
            let prs = values_of(sp.random_challenges@);
            &&& new_wb.len() == li + 1
            &&& new_wc.len() == li + 1
            &&& new_wb == old_wb.push(new_wb[li as int])
            &&& new_wc == old_wc.push(new_wc[li as int])
            &&& tr2 == state_after(state_after(e, new_wb[li as int]), new_wc[li as int])
            &&& alpha2 == challenge_after(e, new_wb[li as int])
            &&& beta2 == challenge_after(state_after(e, new_wb[li as int]), new_wc[li as int])
            &&& claim2 == fadd(fmul(alpha2, new_wb[li as int]), fmul(beta2, new_wc[li as int]))
            &&& rb2 == prs.take(prs.len() as int / 2)
            &&& rc2 == prs.skip(prs.len() as int / 2)
        },
    ensures
        prover_progress(
            gs,
            inp,
            new_p,
            new_wb,
            new_wc,
            t,
            ra,
            c0,
            li + 1,
            n,
            tr2,
            claim2,
            alpha2,
            beta2,
            rb2,
            rc2,
        ),
{
    reveal(prover_progress);
    lemma_prover_step(
        gs,
        inp,
        t,
        ra,
        c0,
        old_p,
        old_wb,
        old_wc,
        new_p,
        new_wb,
        new_wc,
        sp,
        tt,
        claim,
        rb,
        rc,
        alpha,
        beta,
        li,
    );
    if li + 1 < n {
        assert(new_p[li as int] == sp);
        assert(new_p.len() == li + 1);
    }
}

/// The state in which the prover handles layer `k`: the circuit fits the
/// protocol on `input` and the evaluation holds every layer's values.
pub open spec fn gkr_layer_ready(
    gs: Seq<Seq<Gate>>,
    input: Seq<int>,
    ce: CircuitEvaluationResult,
    k: nat,
) -> bool {
    &&& gkr_shape(gs, input)
    &&& k < gs.len()
    &&& ce.layer_evaluations@.len() == gs.len() + 1
    &&& forall|j: int|
        0 <= j <= gs.len() ==> values_of((#[trigger] ce.layer_evaluations@[j])@) == layer_values(
            gs,
            input,
            j as nat,
        )
}

/// One layer of the prover: the layer's wiring predicates, bound to the first
/// challenge (output layer) or folded over the previous layer's two points,
/// make the summand with the layer below, on which the sum-check runs.
#[verifier::rlimit(60)]
fn prove_layer(
    circuit: &mut Circuit,
    circuit_evaluation: &CircuitEvaluationResult,
    layer_index: usize,
    random_challenge_a: FieldElement,
    alpha: FieldElement,
    beta: FieldElement,
    rb_values: &[FieldElement],
    rc_values: &[FieldElement],
    claimed_sum: FieldElement,
    transcript: &mut Transcript,
    values: Ghost<Seq<int>>,
) -> (r: SumcheckProverProof)
    requires
        gkr_layer_ready(old(circuit)@, values@, *circuit_evaluation, layer_index as nat),
        layer_index >= 1 ==> rb_values@.len() == layer_index && rc_values@.len() == layer_index,
    ensures
        *final(circuit) == *old(circuit),
        r.claimed_sum == claimed_sum,
        r.random_challenges@.len() == 2 * (layer_index + 1),
        sumcheck_proof_of(
            layer_summand(
                old(circuit)@,
                values@,
                layer_index as nat,
                random_challenge_a@,
                values_of(rb_values@),
                values_of(rc_values@),
                alpha@,
                beta@,
            ),
            claimed_sum@,
            old(transcript)@,
            r,
        ),
        final(transcript)@ == sumcheck_end(old(transcript)@, r),
{
    let ghost input = values@;
    let ghost li = layer_index as nat;
    let ghost gs = circuit@;
    let ghost inp = input;
    let ghost nv = layer_variables(li);
    proof {
        assert(wiring_fits(gs, li));
        lemma_log2_two_pow(nv);
        lemma_two_pow_pos(nv);
        assert(layer_values(gs, inp, li + 1).len() == two_pow(li + 1));
        lemma_two_pow_adds(li + 1, li + 1);
        lemma_two_pow_monotone(2 * li + 2, nv);
        lemma_log2_two_pow(2 * li + 2);
        lemma_log2_two_pow(li + 1);
    }
    let (add_i_abc_polynomial, mul_i_abc_polynomial) = circuit.add_i_and_mul_i_mle(
        layer_index,
    );
    proof {
        lemma_values_of_len(add_i_abc_polynomial.evaluated_values@);
        lemma_values_of_len(mul_i_abc_polynomial.evaluated_values@);
    }
    let (add_i_bc, mul_i_bc) = if layer_index == 0 {
        (
            MultilinearPolynomialEV::partial_evaluate(
                add_i_abc_polynomial.evaluated_values.as_slice(),
                0,
                random_challenge_a,
            ),
            MultilinearPolynomialEV::partial_evaluate(
                mul_i_abc_polynomial.evaluated_values.as_slice(),
                0,
                random_challenge_a,
            ),
        )
    } else {
        proof {
            lemma_bind_leading_shape(add_i_abc_polynomial@, values_of(rb_values@));
            lemma_bind_leading_shape(mul_i_abc_polynomial@, values_of(rb_values@));
            lemma_values_of_len(rb_values@);
            lemma_values_of_len(rc_values@);
        }
        compute_new_add_i_mul_i(
            alpha,
            beta,
            add_i_abc_polynomial,
            mul_i_abc_polynomial,
            rb_values,
            rc_values,
        )
    };
    proof {
        lemma_values_of_len(add_i_bc.evaluated_values@);
        lemma_values_of_len(mul_i_bc.evaluated_values@);
        if layer_index == 0 {
            assert(two_pow(3) == 8) by {
                reveal_with_fuel(two_pow, 4);
            }
            assert(two_pow(2) == 4) by {
                reveal_with_fuel(two_pow, 3);
            }
        }
    }
    let wb_poly = Circuit::w_i_polynomial(circuit_evaluation, layer_index + 1);
    let wc_poly = MultilinearPolynomialEV::new(wb_poly.evaluated_values.as_slice());
    proof {
        assert(values_of(circuit_evaluation.layer_evaluations@[layer_index + 1]@)
            == layer_values(gs, inp, li + 1));
        lemma_values_of_len(wb_poly.evaluated_values@);
        assert(wb_poly@ == layer_values(gs, inp, li + 1));
        assert(wc_poly@ == wb_poly@);
    }
    let fbc_polynomial = compute_fbc_polynomial(add_i_bc, mul_i_bc, &wb_poly, &wc_poly);
    proof {
        let qs = fbc_polynomial@;
        let m = two_pow(2 * li + 2);
        assert(qs[0][0].len() == m);
        assert(qs[0][1].len() == m);
        assert(qs[1][0].len() == m);
        assert(qs[1][1].len() == m);
        assert(all_hypercube(qs[0], 2 * li + 2));
        assert(all_hypercube(qs[1], 2 * li + 2));
        assert(sum_shape(qs, 2 * li + 2));
        assert(provable_shape(qs));
        assert(qs == layer_summand(
            gs,
            inp,
            li,
            random_challenge_a@,
            values_of(rb_values@),
            values_of(rc_values@),
            alpha@,
            beta@,
        ));
    }
    sumcheck_prove(fbc_polynomial, claimed_sum, transcript)
}


/// The challenge drawn after absorbing `v` into a transcript with input `t`.
pub open spec fn challenge_after(t: Seq<u8>, v: int) -> int {
    le_value(keccak256_of(t + be_bytes(v, 32))) % modulus()
}

/// The transcript input after absorbing `v` into input `t` and drawing a
/// challenge.
pub open spec fn state_after(t: Seq<u8>, v: int) -> Seq<u8> {
    keccak256_of(t + be_bytes(v, 32))
}

/// Absorbs the two values `wb` and `wc` of the layer below, drawing `alpha`
/// after the first and `beta` after the second; the next claim is
/// `alpha * wb + beta * wc`.
fn fold_claims(transcript: &mut Transcript, wb: FieldElement, wc: FieldElement) -> (r: (
    FieldElement,
    FieldElement,
    FieldElement,
))
    ensures
        r.0@ == challenge_after(old(transcript)@, wb@),
        r.1@ == challenge_after(state_after(old(transcript)@, wb@), wc@),
        final(transcript)@ == state_after(state_after(old(transcript)@, wb@), wc@),
        r.2@ == fadd(fmul(r.0@, wb@), fmul(r.1@, wc@)),
{
    let wb_bytes = field_element_to_bytes(wb);
    transcript.absorb(wb_bytes.as_slice());
    let alpha = transcript.random_challenge_as_field_element();
    let wc_bytes = field_element_to_bytes(wc);
    transcript.absorb(wc_bytes.as_slice());
    let beta = transcript.random_challenge_as_field_element();
    let claim = alpha.mul(&wb).add(&beta.mul(&wc));
    (alpha, beta, claim)
}


/// What the prover's proof holds: every layer's sum-check proof is the
/// prover's (`layer_proved`: its summand, claim, round polynomials and
/// challenges, all from the transcript), the circuit's output, the output
/// table's value at the first challenge as the first claim, one challenge per
/// variable, the values of each inner layer at the two halves of the
/// challenges of the layer above, and the last claim as the claimed sum.
pub open spec fn prover_result(gs: Seq<Seq<Gate>>, inp: Seq<int>, r: Proof) -> bool {
    let w0 = padded_output(layer_values(gs, inp, 0));
    let n = gs.len();
    &&& forall|i: nat|
        i < n ==> #[trigger] layer_proved(
            gs,
            inp,
            r.sumcheck_proofs@,
            values_of(r.wb_evaluations@),
            values_of(r.wc_evaluations@),
            keccak256_of(be_concat(w0)),
            output_challenge(w0),
            mle_evaluate(w0, seq![output_challenge(w0)]),
            i,
        )
    &&& values_of(r.circuit_output@) == layer_values(gs, inp, 0)
    &&& r.sumcheck_proofs@.len() == n
    &&& r.wb_evaluations@.len() == n - 1
    &&& r.wc_evaluations@.len() == n - 1
    &&& r.sumcheck_proofs@[0].claimed_sum@ == mle_evaluate(w0, seq![output_challenge(w0)])
    &&& r.claimed_sum == r.sumcheck_proofs@[n - 1].claimed_sum
    &&& forall|i: int|
        0 <= i < n ==> (#[trigger] r.sumcheck_proofs@[i]).random_challenges@.len() == 2 * (i
            + 1)
    &&& forall|i: int|
        0 <= i < n - 1 ==> {
            &&& (#[trigger] r.wb_evaluations@[i])@ == mle_evaluate(
                layer_values(gs, inp, (i + 1) as nat),
                values_of(r.sumcheck_proofs@[i].random_challenges@).take(i + 1),
            )
            &&& r.wc_evaluations@[i]@ == mle_evaluate(
                layer_values(gs, inp, (i + 1) as nat),
                values_of(r.sumcheck_proofs@[i].random_challenges@).skip(i + 1),
            )
        }
}

/// Proves that the circuit's output is what the circuit computes on
/// `inputs`: one sum-check per layer, the claims on the layer below folded
/// into one with the transcript's challenges.
#[verifier::rlimit(100)]
pub fn prove(circuit: &mut Circuit, inputs: &[FieldElement]) -> (r: Proof)
    requires
        gkr_shape(old(circuit)@, values_of(inputs@)),
    ensures
        *final(circuit) == *old(circuit),
        prover_result(old(circuit)@, values_of(inputs@), r),
{
    let ghost gs = circuit@;
    let ghost inp = values_of(inputs@);
    let n_layers = circuit.layers.len();
    proof {
        assert(wiring_fits(gs, (n_layers - 1) as nat));
        lemma_values_of_len(inputs@);
    }
    let circuit_evaluation = circuit.evaluate(copy_values(inputs));
    let mut transcript = Transcript::new();
    let mut layer_proofs: Vec<SumcheckProverProof> = Vec::new();
    let mut wb_evaluations: Vec<FieldElement> = Vec::new();
    let mut wc_evaluations: Vec<FieldElement> = Vec::new();
    let mut alpha = FieldElement::zero();
    let mut beta = FieldElement::zero();
    let mut rb_values: Vec<FieldElement> = Vec::new();
    let mut rc_values: Vec<FieldElement> = Vec::new();
    let mut w0_polynomial = Circuit::w_i_polynomial(&circuit_evaluation, 0);
    proof {
        assert(values_of(circuit_evaluation.layer_evaluations@[0]@) == layer_values(gs, inp, 0));
        lemma_values_of_len(w0_polynomial.evaluated_values@);
    }
    if w0_polynomial.evaluated_values.len() == 1 {
        let mut w0_padded_with_zero = w0_polynomial.evaluated_values;
        w0_padded_with_zero.push(FieldElement::zero());
        w0_polynomial = MultilinearPolynomialEV::new(w0_padded_with_zero.as_slice());
    }
    let ghost w0 = padded_output(layer_values(gs, inp, 0));
    proof {
        assert(w0_polynomial@ =~= w0);
        lemma_values_of_len(w0_polynomial.evaluated_values@);
        assert(w0.len() == 2) by {
            assert(layer_values(gs, inp, 0).len() >= 1);
        }
        assert(two_pow(1) == 2) by {
            assert(two_pow(0) == 1);
        }
        lemma_log2_two_pow(1);
    }
    let w0_bytes = w0_polynomial.convert_to_bytes();
    transcript.absorb(w0_bytes.as_slice());
    assert(transcript@ =~= be_concat(w0));
    let random_challenge_a = transcript.random_challenge_as_field_element();
    let mut ra: Vec<FieldElement> = Vec::new();
    ra.push(random_challenge_a);
    assert(values_of(ra@) =~= seq![output_challenge(w0)]);
    let mut claimed_sum = w0_polynomial.evaluate(ra.as_slice());
    let ghost t_start = transcript@;
    let ghost ra_value = output_challenge(w0);
    let ghost c0 = mle_evaluate(w0, seq![output_challenge(w0)]);
    proof {
        lemma_values_of_len(wb_evaluations@);
        lemma_values_of_len(wc_evaluations@);
        lemma_progress_start(
            gs,
            inp,
            t_start,
            ra_value,
            c0,
            n_layers as nat,
            claimed_sum@,
            alpha@,
            beta@,
            values_of(rb_values@),
            values_of(rc_values@),
        );
        assert(values_of(wb_evaluations@) =~= Seq::<int>::empty());
        assert(values_of(wc_evaluations@) =~= Seq::<int>::empty());
        assert(layer_proofs@ =~= Seq::<SumcheckProverProof>::empty());
    }
    let mut layer_index: usize = 0;
    while layer_index < n_layers
        invariant
            layer_index <= n_layers,
            n_layers == gs.len(),
            circuit@ == gs,
            *circuit == *old(circuit),
            gkr_shape(gs, inp),
            t_start == keccak256_of(be_concat(w0)),
            ra_value == output_challenge(w0),
            c0 == mle_evaluate(w0, seq![output_challenge(w0)]),
            circuit_evaluation.layer_evaluations@.len() == n_layers + 1,
            forall|k: int|
                0 <= k <= n_layers ==> values_of(
                    (#[trigger] circuit_evaluation.layer_evaluations@[k])@,
                ) == layer_values(gs, inp, k as nat),
            values_of(circuit_evaluation.output@) == layer_values(gs, inp, 0),
            prover_progress(
                gs,
                inp,
                layer_proofs@,
                values_of(wb_evaluations@),
                values_of(wc_evaluations@),
                t_start,
                ra_value,
                c0,
                layer_index as nat,
                n_layers as nat,
                transcript@,
                claimed_sum@,
                alpha@,
                beta@,
                values_of(rb_values@),
                values_of(rc_values@),
            ),
            1 <= layer_index < n_layers ==> rb_values@.len() == layer_index && rc_values@.len()
                == layer_index,
            layer_proofs@.len() == layer_index,
            layer_index >= 1 ==> layer_proofs@[0].claimed_sum@ == mle_evaluate(
                w0,
                seq![output_challenge(w0)],
            ),
            layer_index == 0 ==> claimed_sum@ == mle_evaluate(w0, seq![output_challenge(w0)]),
            layer_index == n_layers ==> claimed_sum == layer_proofs@[layer_index - 1].claimed_sum,
            wb_evaluations@.len() == if layer_index == n_layers {
                n_layers - 1
            } else {
                layer_index as int
            },
            wc_evaluations@.len() == wb_evaluations@.len(),
            forall|i: int|
                0 <= i < layer_index ==> (#[trigger] layer_proofs@[i]).random_challenges@.len()
                    == 2 * (i + 1),
            forall|i: int|
                0 <= i < wb_evaluations@.len() ==> {
                    &&& (#[trigger] wb_evaluations@[i])@ == mle_evaluate(
                        layer_values(gs, inp, (i + 1) as nat),
                        values_of(layer_proofs@[i].random_challenges@).take(i + 1),
                    )
                    &&& wc_evaluations@[i]@ == mle_evaluate(
                        layer_values(gs, inp, (i + 1) as nat),
                        values_of(layer_proofs@[i].random_challenges@).skip(i + 1),
                    )
                },
            random_challenge_a@ == output_challenge(w0),
        decreases n_layers - layer_index,
    {
        assert(gkr_layer_ready(gs, inp, circuit_evaluation, layer_index as nat));
        let ghost tt = transcript@;
        let ghost old_claim = claimed_sum@;
        let ghost old_alpha = alpha@;
        let ghost old_beta = beta@;
        let ghost old_rb = values_of(rb_values@);
        let ghost old_rc = values_of(rc_values@);
        let sumcheck_proof = prove_layer(
            circuit,
            &circuit_evaluation,
            layer_index,
            random_challenge_a,
            alpha,
            beta,
            rb_values.as_slice(),
            rc_values.as_slice(),
            claimed_sum,
            &mut transcript,
            Ghost(inp),
        );
        let wb_poly = Circuit::w_i_polynomial(&circuit_evaluation, layer_index + 1);
        let wc_poly = MultilinearPolynomialEV::new(wb_poly.evaluated_values.as_slice());
        proof {
            let li = layer_index as nat;
            assert(values_of(circuit_evaluation.layer_evaluations@[layer_index + 1]@)
                == layer_values(gs, inp, li + 1));
            lemma_values_of_len(wb_poly.evaluated_values@);
            assert(layer_values(gs, inp, li + 1).len() == two_pow(li + 1));
            lemma_log2_two_pow(li + 1);
            assert(wb_poly@ == layer_values(gs, inp, li + 1));
            assert(wc_poly@ == wb_poly@);
        }
        let sumcheck_challenges = copy_values(sumcheck_proof.random_challenges.as_slice());
        proof {
            lemma_values_of_len(sumcheck_proof.random_challenges@);
        }
        let ghost sp = sumcheck_proof;
        let ghost old_proofs = layer_proofs@;
        layer_proofs.push(sumcheck_proof);
        assert(layer_proofs@[layer_index as int] == sp);
        assert(forall|i: int| 0 <= i < layer_index ==> layer_proofs@[i] == old_proofs[i]);
        assert(sp.random_challenges@ == sumcheck_challenges@);
        let ghost old_wb = wb_evaluations@;
        let ghost old_wc = wc_evaluations@;
        if layer_index < n_layers - 1 {
            let (wb_evaluation, wc_evaluation) = evaluate_wb_wc(
                &wb_poly,
                &wc_poly,
                sumcheck_challenges.as_slice(),
            );
            assert(sumcheck_challenges@.len() / 2 == layer_index + 1);
            wb_evaluations.push(wb_evaluation);
            wc_evaluations.push(wc_evaluation);
            let middle = sumcheck_challenges.len() / 2;
            let (current_rb_values, current_rc_values) = sumcheck_challenges.as_slice().split_at(
                middle,
            );
            rb_values = copy_values(current_rb_values);
            rc_values = copy_values(current_rc_values);
            assert(values_of(rb_values@) =~= values_of(sumcheck_challenges@).take(middle as int));
            assert(values_of(rc_values@) =~= values_of(sumcheck_challenges@).skip(middle as int));
            assert(transcript@ == sumcheck_end(tt, sp));
            let (next_alpha, next_beta, next_claim) = fold_claims(
                &mut transcript,
                wb_evaluation,
                wc_evaluation,
            );
            alpha = next_alpha;
            beta = next_beta;
            claimed_sum = next_claim;
        }
        proof {
            assert forall|i: int| 0 <= i < wb_evaluations@.len() implies {
                &&& (#[trigger] wb_evaluations@[i])@ == mle_evaluate(
                    layer_values(gs, inp, (i + 1) as nat),
                    values_of(layer_proofs@[i].random_challenges@).take(i + 1),
                )
                &&& wc_evaluations@[i]@ == mle_evaluate(
                    layer_values(gs, inp, (i + 1) as nat),
                    values_of(layer_proofs@[i].random_challenges@).skip(i + 1),
                )
            } by {
                if i < old_wb.len() {
                    assert(wb_evaluations@[i] == old_wb[i]);
                    assert(wc_evaluations@[i] == old_wc[i]);
                    assert(layer_proofs@[i] == old_proofs[i]);
                }
            }
            let li = layer_index as nat;
            lemma_values_of_len(old_wb);
            lemma_values_of_len(old_wc);
            lemma_values_of_len(wb_evaluations@);
            lemma_values_of_len(wc_evaluations@);
            assert(layer_proofs@ == old_proofs.push(sp));
            if layer_index + 1 < n_layers {
                assert(values_of(wb_evaluations@) =~= values_of(old_wb).push(wb_evaluations@[li as int]@));
                assert(values_of(wc_evaluations@) =~= values_of(old_wc).push(wc_evaluations@[li as int]@));
                assert(values_of(sp.random_challenges@) == values_of(sumcheck_challenges@));
            } else {
                assert(wb_evaluations@ == old_wb);
                assert(wc_evaluations@ == old_wc);
            }
            lemma_progress_step(
                gs,
                inp,
                t_start,
                ra_value,
                c0,
                old_proofs,
                values_of(old_wb),
                values_of(old_wc),
                layer_proofs@,
                values_of(wb_evaluations@),
                values_of(wc_evaluations@),
                sp,
                li,
                n_layers as nat,
                tt,
                old_claim,
                old_alpha,
                old_beta,
                old_rb,
                old_rc,
                transcript@,
                claimed_sum@,
                alpha@,
                beta@,
                values_of(rb_values@),
                values_of(rc_values@),
            );
        }
        layer_index = layer_index + 1;
    }
    let r = Proof {
        circuit_output: circuit_evaluation.output,
        claimed_sum,
        sumcheck_proofs: layer_proofs,
        wb_evaluations,
        wc_evaluations,
    };
    assert(r.sumcheck_proofs@[0].claimed_sum@ == mle_evaluate(w0, seq![output_challenge(w0)]));
    assert(r.claimed_sum == r.sumcheck_proofs@[n_layers - 1].claimed_sum);
    assert(values_of(r.circuit_output@) == layer_values(gs, inp, 0));
    proof {
        lemma_progress_done(
            gs,
            inp,
            r.sumcheck_proofs@,
            values_of(r.wb_evaluations@),
            values_of(r.wc_evaluations@),
            t_start,
            ra_value,
            c0,
            n_layers as nat,
            transcript@,
            claimed_sum@,
            alpha@,
            beta@,
            values_of(rb_values@),
            values_of(rc_values@),
        );
    }
    assert(prover_result(gs, inp, r));
    r
}

/// The output layer's expected final sum-check value (see
/// `compute_verifier_initial_claim`).
pub open spec fn initial_claim_spec(
    gs: Seq<Seq<Gate>>,
    ra: int,
    ch: Seq<int>,
    wb: int,
    wc: int,
) -> int {
    let size = two_pow(layer_variables(0));
    layer_claim(
        mle_evaluate(bind_leading(wiring_table(gs[0], 0, Operation::ADD, size), seq![ra]), ch),
        mle_evaluate(bind_leading(wiring_table(gs[0], 0, Operation::MUL, size), seq![ra]), ch),
        wb,
        wc,
    )
}

/// Layer `i`'s expected final sum-check value (see
/// `compute_verifier_folded_claim`).
pub open spec fn folded_claim_spec(
    gs: Seq<Seq<Gate>>,
    i: nat,
    prev: Seq<int>,
    ch: Seq<int>,
    alpha: int,
    beta: int,
    wb: int,
    wc: int,
) -> int {
    let size = two_pow(layer_variables(i));
    let rb = prev.take(prev.len() as int / 2);
    let rc = prev.skip(prev.len() as int / 2);
    layer_claim(
        mle_evaluate(fold_table(wiring_table(gs[i as int], i, Operation::ADD, size), rb, rc, alpha, beta), ch),
        mle_evaluate(fold_table(wiring_table(gs[i as int], i, Operation::MUL, size), rb, rc, alpha, beta), ch),
        wb,
        wc,
    )
}

/// The verifier accepts layers `i` onwards, starting from transcript input
/// `t`, running claim `claim`, folding challenges `alpha` and `beta` and the
/// previous layer's sum-check challenges `prev`. At each layer: the proof's
/// sum-check must start from the running claim, be consistent in every
/// round, have one round per variable, and end on the value that the wiring
/// predicates and the two values of the layer below give (the values of the
/// input layer are computed from `inputs`).
pub open spec fn layers_accept(
    gs: Seq<Seq<Gate>>,
    proof: Proof,
    inputs: Seq<int>,
    ra: int,
    i: nat,
    t: Seq<u8>,
    claim: int,
    alpha: int,
    beta: int,
    prev: Seq<int>,
) -> bool
    decreases gs.len() - i,
{
    if i >= gs.len() {
        true
    } else {
        let p = proof.sumcheck_proofs@[i as int];
        let c = p.claimed_sum@;
        let t0 = sumcheck_start(t, c);
        let rounds = rounds_of(p.round_univariate_polynomials@);
        let m = rounds.len();
        let ch = Seq::new(m, |j: int| round_challenge(t0, rounds, j as nat));
        let last = expected_sum(t0, rounds, c, m);
        let t1 = round_state(t0, rounds, m);
        let wb = if i + 1 < gs.len() {
            proof.wb_evaluations@[i as int]@
        } else {
            mle_evaluate(inputs, ch.take(m as int / 2))
        };
        let wc = if i + 1 < gs.len() {
            proof.wc_evaluations@[i as int]@
        } else {
            mle_evaluate(inputs, ch.skip(m as int / 2))
        };
        let expected = if i == 0 {
            initial_claim_spec(gs, ra, ch, wb, wc)
        } else {
            folded_claim_spec(gs, i, prev, ch, alpha, beta, wb, wc)
        };
        let next_alpha = challenge_after(t1, wb);
        let next_beta = challenge_after(state_after(t1, wb), wc);
        &&& claim == c
        &&& forall|j: nat| j < m ==> #[trigger] round_consistent(t0, rounds, c, j)
        &&& m == 2 * (i + 1)
        &&& expected == last
        &&& layers_accept(
            gs,
            proof,
            inputs,
            ra,
            i + 1,
            state_after(state_after(t1, wb), wc),
            fadd(fmul(next_alpha, wb), fmul(next_beta, wc)),
            next_alpha,
            next_beta,
            ch,
        )
    }
}

/// The verifier's verdict on `proof` for circuit `gs` and `inputs`: the
/// proof has a sum-check for every layer and values for every inner layer,
/// its claimed sum is the last layer's claim,
/// the (padded) output is a table of at least one variable, and the layers
/// are accepted from the output challenge on.
pub open spec fn gkr_accepts(gs: Seq<Seq<Gate>>, proof: Proof, inputs: Seq<int>) -> bool {
    let w0 = padded_output(values_of(proof.circuit_output@));
    let ra = output_challenge(w0);
    &&& proof.sumcheck_proofs@.len() >= gs.len()
    &&& proof.claimed_sum@ == proof.sumcheck_proofs@[gs.len() - 1].claimed_sum@
    &&& proof.wb_evaluations@.len() + 1 >= gs.len()
    &&& proof.wc_evaluations@.len() + 1 >= gs.len()
    &&& w0.len() >= 2
    &&& is_hypercube_len(w0.len())
    &&& layers_accept(
        gs,
        proof,
        inputs,
        ra,
        0,
        keccak256_of(be_concat(w0)),
        mle_evaluate(w0, seq![ra]),
        0,
        0,
        Seq::empty(),
    )
}

/// A circuit the verifier can check against `n` inputs: `n` is `2^L` for
/// `L` layers and every gate's point lies in its layer's wiring tables.
pub open spec fn verifiable_shape(gs: Seq<Seq<Gate>>, n: nat) -> bool {
    &&& gs.len() >= 1
    &&& n == two_pow(gs.len())
    &&& forall|k: nat| k < gs.len() ==> #[trigger] wiring_fits(gs, k)
}

proof fn lemma_hypercube_floor(n: nat)
    requires
        n >= 1,
    ensures
        two_pow(log2(n)) <= n,
    decreases n,
{
    if n > 1 {
        lemma_hypercube_floor(n / 2);
    } else {
        assert(two_pow(0) == 1);
    }
}

/// Accepting a layer needs its claim and every sum-check round to hold.
proof fn lemma_layers_accept_claim(
    gs: Seq<Seq<Gate>>,
    proof: Proof,
    inputs: Seq<int>,
    ra: int,
    i: nat,
    t: Seq<u8>,
    claim: int,
    alpha: int,
    beta: int,
    prev: Seq<int>,
)
    requires
        i < gs.len(),
    ensures
        layers_accept(gs, proof, inputs, ra, i, t, claim, alpha, beta, prev) ==> {
            let p = proof.sumcheck_proofs@[i as int];
            let t0 = sumcheck_start(t, p.claimed_sum@);
            let rounds = rounds_of(p.round_univariate_polynomials@);
            &&& claim == p.claimed_sum@
            &&& forall|j: nat|
                j < rounds.len() ==> #[trigger] round_consistent(t0, rounds, p.claimed_sum@, j)
            &&& rounds.len() == 2 * (i + 1)
        },
{
}

/// Whether `n` is a power of two.
fn is_hypercube_size(n: usize) -> (r: bool)
    ensures
        r == (n >= 1 && is_hypercube_len(n as nat)),
{
    if n == 0 {
        return false;
    }
    let k = ilog2(n);
    proof {
        lemma_hypercube_floor(n as nat);
    }
    let size = two_pow_exec(k as usize, n);
    size == n
}

/// Checks a proof of the circuit's output on `inputs`, replaying the
/// prover's transcript. Never fails on a malformed proof: it is rejected.
#[verifier::rlimit(100)]
pub fn verify(circuit: &mut Circuit, proof: Proof, inputs: &[FieldElement]) -> (r: bool)
    requires
        verifiable_shape(old(circuit)@, inputs@.len()),
    ensures
        *final(circuit) == *old(circuit),
        r == gkr_accepts(old(circuit)@, proof, values_of(inputs@)),
{
    let ghost gs = circuit@;
    let ghost inp = values_of(inputs@);
    let n_layers = circuit.layers.len();
    if proof.sumcheck_proofs.len() < n_layers || proof.wb_evaluations.len() < n_layers - 1
        || proof.wc_evaluations.len() < n_layers - 1 {
        return false;
    }
    if !proof.claimed_sum.equals(&proof.sumcheck_proofs[n_layers - 1].claimed_sum) {
        return false;
    }
    let mut output = copy_values(proof.circuit_output.as_slice());
    if output.len() == 1 {
        output.push(FieldElement::zero());
    }
    let w0_polynomial = MultilinearPolynomialEV { evaluated_values: output };
    let ghost w0 = padded_output(values_of(proof.circuit_output@));
    proof {
        lemma_values_of_len(proof.circuit_output@);
        lemma_values_of_len(w0_polynomial.evaluated_values@);
        assert(w0_polynomial@ =~= w0);
    }
    if w0_polynomial.evaluated_values.len() < 2 || !is_hypercube_size(
        w0_polynomial.evaluated_values.len(),
    ) {
        return false;
    }
    proof {
        lemma_two_pow_pos(log2(w0.len()));
        assert(log2(w0.len()) >= 1);
        lemma_values_of_len(inputs@);
        lemma_log2_two_pow(n_layers as nat);
        assert(wiring_fits(gs, (n_layers - 1) as nat));
    }
    let mut transcript = Transcript::new();
    let w0_bytes = w0_polynomial.convert_to_bytes();
    transcript.absorb(w0_bytes.as_slice());
    assert(transcript@ =~= be_concat(w0));
    let random_challenge_a = transcript.random_challenge_as_field_element();
    let mut ra: Vec<FieldElement> = Vec::new();
    ra.push(random_challenge_a);
    assert(values_of(ra@) =~= seq![output_challenge(w0)]);
    let mut claimed_sum = w0_polynomial.evaluate(ra.as_slice());
    let mut alpha = FieldElement::zero();
    let mut beta = FieldElement::zero();
    let mut prev_sumcheck_challenges: Vec<FieldElement> = Vec::new();
    let input_polynomial = MultilinearPolynomialEV::new(inputs);
    assert(values_of(prev_sumcheck_challenges@) =~= Seq::<int>::empty());
    let mut layer_index: usize = 0;
    while layer_index < n_layers
        invariant
            layer_index <= n_layers,
            n_layers == gs.len(),
            circuit@ == gs,
            *circuit == *old(circuit),
            verifiable_shape(gs, inputs@.len()),
            input_polynomial@ == inp,
            inp == values_of(inputs@),
            inp.len() == two_pow(n_layers as nat),
            log2(inp.len()) == n_layers,
            random_challenge_a@ == output_challenge(w0),
            proof.sumcheck_proofs@.len() >= n_layers,
            proof.wb_evaluations@.len() + 1 >= n_layers,
            proof.wc_evaluations@.len() + 1 >= n_layers,
            prev_sumcheck_challenges@.len() == 2 * layer_index,
            gkr_accepts(gs, proof, inp) == layers_accept(
                gs,
                proof,
                inp,
                output_challenge(w0),
                layer_index as nat,
                transcript@,
                claimed_sum@,
                alpha@,
                beta@,
                values_of(prev_sumcheck_challenges@),
            ),
        decreases n_layers - layer_index,
    {
        let ghost li = layer_index as nat;
        proof {
            assert(wiring_fits(gs, li));
        }
        let sumcheck_proof = &proof.sumcheck_proofs[layer_index];
        assert(*sumcheck_proof == proof.sumcheck_proofs@[layer_index as int]);
        let ghost state = (transcript@, claimed_sum@, alpha@, beta@, values_of(prev_sumcheck_challenges@));
        proof {
            lemma_layers_accept_claim(gs, proof, inp, output_challenge(w0), li, state.0, state.1, state.2, state.3, state.4);
        }
        if !claimed_sum.equals(&sumcheck_proof.claimed_sum) {
            return false;
        }
        let verify_result = sumcheck_verify(sumcheck_proof, &mut transcript);
        if !verify_result.is_proof_valid {
            return false;
        }
        if verify_result.random_challenges.len() != 2 * (layer_index + 1) {
            return false;
        }
        let sumcheck_challenges = verify_result.random_challenges;
        proof {
            lemma_values_of_len(sumcheck_challenges@);
            lemma_values_of_len(prev_sumcheck_challenges@);
        }
        let (wb_evaluation, wc_evaluation) = if layer_index < n_layers - 1 {
            (proof.wb_evaluations[layer_index], proof.wc_evaluations[layer_index])
        } else {
            evaluate_wb_wc(&input_polynomial, &input_polynomial, sumcheck_challenges.as_slice())
        };
        let expected_claim = if layer_index == 0 {
            compute_verifier_initial_claim(
                circuit,
                layer_index,
                random_challenge_a,
                sumcheck_challenges.as_slice(),
                wb_evaluation,
                wc_evaluation,
            )
        } else {
            let challenges = SumcheckChallenges {
                current: copy_values(sumcheck_challenges.as_slice()),
                previous: copy_values(prev_sumcheck_challenges.as_slice()),
            };
            let evals = Evaluations {
                wb: wb_evaluation,
                wc: wc_evaluation,
                alpha,
                beta,
            };
            compute_verifier_folded_claim(circuit, layer_index, &challenges, &evals)
        };
        if !expected_claim.equals(&verify_result.last_claimed_sum) {
            return false;
        }
        prev_sumcheck_challenges = sumcheck_challenges;
        let (next_alpha, next_beta, next_claim) = fold_claims(
            &mut transcript,
            wb_evaluation,
            wc_evaluation,
        );
        alpha = next_alpha;
        beta = next_beta;
        claimed_sum = next_claim;
        layer_index = layer_index + 1;
    }
    true
}

} // verus!
