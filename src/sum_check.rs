//! The sum-check protocol over a sum of products of multilinear polynomials,
//! made non-interactive with the transcript.
use crate::densed_uni_poly::{interpolation, uni_eval, DensedUnivariatePolynomial};
use crate::evaluation::{
    log2, partial_eval_spec, two_pow, values_of, lemma_log2_two_pow, lemma_two_pow_pos,
};
use crate::field::{be_bytes, fadd, fsub, le_bytes, le_value, modulus, FieldElement, lemma_modulus_bounds};
use crate::poly_sum::{bind_sum, sum_column, sum_shape, lemma_bind_sum_shape, SumPolynomial};
use crate::product_poly::{all_hypercube, column_product};
use crate::transcript::{keccak256_of, Transcript};
use vstd::arithmetic::div_mod::{
    lemma_add_mod_noop, lemma_basic_div, lemma_mod_twice, lemma_mul_mod_noop_general,
    lemma_small_mod,
};
use vstd::prelude::*;

verus! {

/// The sum of `s`, added from the front.
pub open spec fn seq_sum(s: Seq<int>) -> int
    decreases s.len(),
{
    if s.len() == 0 {
        0
    } else {
        fadd(seq_sum(s.drop_last()), s.last())
    }
}

/// The little-endian 32-byte encodings of `s`, concatenated.
pub open spec fn le_concat(s: Seq<int>) -> Seq<u8>
    decreases s.len(),
{
    if s.len() == 0 {
        Seq::empty()
    } else {
        le_concat(s.drop_last()) + le_bytes(s.last(), 32)
    }
}

/// The points `0, 1, ..., k - 1`.
pub open spec fn first_points(k: nat) -> Seq<int> {
    Seq::new(k, |i: int| i)
}

/// The sum over the hypercube of the remaining variables, with the first
/// variable bound to `x`.
pub open spec fn round_value(qs: Seq<Seq<Seq<int>>>, x: int) -> int {
    let b = bind_sum(qs, 0, x);
    seq_sum(Seq::new(b[0][0].len(), |i: int| sum_column(b, i, b.len())))
}

/// The round polynomial's values at `0, 1, ..., degree`.
pub open spec fn round_evaluations(qs: Seq<Seq<Seq<int>>>) -> Seq<int> {
    Seq::new(qs[0].len() + 1, |i: int| round_value(qs, i))
}

/// The sum polynomial with its leading variables bound to `rs`, in order.
pub open spec fn bind_prefix(qs: Seq<Seq<Seq<int>>>, rs: Seq<int>) -> Seq<Seq<Seq<int>>>
    decreases rs.len(),
{
    if rs.len() == 0 {
        qs
    } else {
        bind_sum(bind_prefix(qs, rs.drop_last()), 0, rs.last())
    }
}

/// The transcript input when a sum-check on `claimed` starts from `t`.
pub open spec fn sumcheck_start(t: Seq<u8>, claimed: int) -> Seq<u8> {
    t + be_bytes(claimed, 32)
}

/// The transcript input after `i` rounds with round polynomials `rounds`.
pub open spec fn round_state(t0: Seq<u8>, rounds: Seq<Seq<int>>, i: nat) -> Seq<u8>
    decreases i,
{
    if i == 0 {
        t0
    } else {
        keccak256_of(round_state(t0, rounds, (i - 1) as nat) + le_concat(rounds[i - 1]))
    }
}

/// The challenge of round `i`.
pub open spec fn round_challenge(t0: Seq<u8>, rounds: Seq<Seq<int>>, i: nat) -> int {
    le_value(keccak256_of(round_state(t0, rounds, i) + le_concat(rounds[i as int]))) % modulus()
}

/// The sum that round `i` must account for.
pub open spec fn expected_sum(t0: Seq<u8>, rounds: Seq<Seq<int>>, claimed: int, i: nat) -> int {
    if i == 0 {
        claimed
    } else {
        uni_eval(rounds[i - 1], round_challenge(t0, rounds, (i - 1) as nat))
    }
}

/// Round `i`'s polynomial sums to the expected value over `{0, 1}`.
pub open spec fn round_consistent(
    t0: Seq<u8>,
    rounds: Seq<Seq<int>>,
    claimed: int,
    i: nat,
) -> bool {
    fadd(uni_eval(rounds[i as int], 0), uni_eval(rounds[i as int], 1)) == expected_sum(
        t0,
        rounds,
        claimed,
        i,
    )
}

/// The verifier stops at round `k`: the rounds before it are consistent, it
/// is not, and the verifier is left with claim `last` and transcript `t`.
pub open spec fn stops_at(
    t0: Seq<u8>,
    rounds: Seq<Seq<int>>,
    claimed: int,
    k: nat,
    last: int,
    t: Seq<u8>,
) -> bool {
    &&& k < rounds.len()
    &&& forall|i: nat| i < k ==> #[trigger] round_consistent(t0, rounds, claimed, i)
    &&& !round_consistent(t0, rounds, claimed, k)
    &&& last == expected_sum(t0, rounds, claimed, k)
    &&& t == round_state(t0, rounds, k)
}

/// The coefficient lists of the round polynomials.
pub open spec fn rounds_of(ps: Seq<DensedUnivariatePolynomial>) -> Seq<Seq<int>> {
    ps.map_values(|p: DensedUnivariatePolynomial| p@)
}

/// A sum polynomial on which the prover can run: at least two products, each
/// of at least two factors, over a common hypercube.
pub open spec fn provable_shape(qs: Seq<Seq<Seq<int>>>) -> bool {
    &&& qs.len() > 1
    &&& forall|k: int| 0 <= k < qs.len() ==> (#[trigger] qs[k]).len() > 1
    &&& exists|n: nat| sum_shape(qs, n)
    &&& qs[0].len() + 3 <= usize::MAX
}

pub proof fn lemma_bind_keeps_factors(qs: Seq<Seq<Seq<int>>>, r: int)
    ensures
        bind_sum(qs, 0, r).len() == qs.len(),
        forall|k: int| 0 <= k < qs.len() ==> (#[trigger] bind_sum(qs, 0, r)[k]).len() == qs[k].len(),
{
}


/// The integer sum of `s`.
pub open spec fn int_sum(s: Seq<int>) -> int
    decreases s.len(),
{
    if s.len() == 0 {
        0
    } else {
        int_sum(s.drop_last()) + s.last()
    }
}

/// The total of the summand over its whole hypercube.
pub open spec fn hypercube_total(qs: Seq<Seq<Seq<int>>>) -> int {
    seq_sum(Seq::new(qs[0][0].len(), |i: int| sum_column(qs, i, qs.len())))
}

proof fn lemma_seq_sum_int(s: Seq<int>)
    ensures
        seq_sum(s) == int_sum(s) % modulus(),
    decreases s.len(),
{
    lemma_modulus_bounds();
    let m = modulus();
    if s.len() == 0 {
        lemma_small_mod(0, m as nat);
    } else {
        lemma_seq_sum_int(s.drop_last());
        lemma_add_mod_noop(int_sum(s.drop_last()), s.last(), m);
        lemma_mod_twice(int_sum(s.drop_last()), m);
        lemma_add_mod_noop(int_sum(s.drop_last()) % m, s.last(), m);
    }
}

proof fn lemma_int_sum_congruent(a: Seq<int>, b: Seq<int>)
    requires
        a.len() == b.len(),
        forall|i: int| 0 <= i < a.len() ==> #[trigger] (a[i] % modulus()) == b[i] % modulus(),
    ensures
        int_sum(a) % modulus() == int_sum(b) % modulus(),
    decreases a.len(),
{
    lemma_modulus_bounds();
    let m = modulus();
    if a.len() > 0 {
        lemma_int_sum_congruent(a.drop_last(), b.drop_last());
        lemma_add_mod_noop(int_sum(a.drop_last()), a.last(), m);
        lemma_add_mod_noop(int_sum(b.drop_last()), b.last(), m);
    }
}

proof fn lemma_int_sum_split(s: Seq<int>, h: int)
    requires
        0 <= h <= s.len(),
    ensures
        int_sum(s) == int_sum(s.take(h)) + int_sum(s.skip(h)),
    decreases s.len(),
{
    if s.len() == h {
        assert(s.take(h) =~= s);
        assert(s.skip(h) =~= Seq::<int>::empty());
    } else {
        lemma_int_sum_split(s.drop_last(), h);
        assert(s.drop_last().take(h) =~= s.take(h));
        assert(s.skip(h).drop_last() =~= s.drop_last().skip(h));
        assert(s.skip(h).last() == s.last());
    }
}

proof fn lemma_column_product_congruent(a: Seq<Seq<int>>, b: Seq<Seq<int>>, i: int, j: int, k: nat)
    requires
        1 <= k,
        forall|t: int| 0 <= t < k ==> #[trigger] (a[t][i] % modulus()) == b[t][j] % modulus(),
    ensures
        column_product(a, i, k) % modulus() == column_product(b, j, k) % modulus(),
    decreases k,
{
    lemma_modulus_bounds();
    let m = modulus();
    if k > 1 {
        lemma_column_product_congruent(a, b, i, j, (k - 1) as nat);
        let pa = column_product(a, i, (k - 1) as nat);
        let pb = column_product(b, j, (k - 1) as nat);
        lemma_mul_mod_noop_general(pa, a[k - 1][i], m);
        lemma_mul_mod_noop_general(pb, b[k - 1][j], m);
        lemma_mod_twice(pa * a[k - 1][i], m);
        lemma_mod_twice(pb * b[k - 1][j], m);
    }
}

proof fn lemma_sum_column_congruent(
    a: Seq<Seq<Seq<int>>>,
    b: Seq<Seq<Seq<int>>>,
    i: int,
    j: int,
    k: nat,
)
    requires
        1 <= k <= a.len(),
        a.len() == b.len(),
        forall|q: int| 0 <= q < a.len() ==> (#[trigger] a[q]).len() == b[q].len() && a[q].len() >= 1,
        forall|q: int, t: int|
            0 <= q < a.len() && 0 <= t < a[q].len() ==> #[trigger] (a[q][t][i] % modulus())
                == b[q][t][j] % modulus(),
    ensures
        sum_column(a, i, k) % modulus() == sum_column(b, j, k) % modulus(),
    decreases k,
{
    lemma_modulus_bounds();
    let m = modulus();
    assert forall|q: int| 0 <= q < a.len() implies column_product(#[trigger] a[q], i, a[q].len())
        % m == column_product(b[q], j, b[q].len()) % m by {
        assert forall|t: int| 0 <= t < a[q].len() implies #[trigger] (a[q][t][i] % m) == b[q][t][j]
            % m by {}
        lemma_column_product_congruent(a[q], b[q], i, j, a[q].len());
    }
    if k > 1 {
        lemma_sum_column_congruent(a, b, i, j, (k - 1) as nat);
        let sa = sum_column(a, i, (k - 1) as nat);
        let sb = sum_column(b, j, (k - 1) as nat);
        let ca = column_product(a[k - 1], i, a[k - 1].len());
        let cb = column_product(b[k - 1], j, b[k - 1].len());
        assert(ca % m == cb % m);
        lemma_add_mod_noop(sa, ca, m);
        lemma_add_mod_noop(sb, cb, m);
        lemma_mod_twice(sa + ca, m);
        lemma_mod_twice(sb + cb, m);
    } else {
        assert(a[0].len() >= 1);
    }
}

/// Binding the first variable to zero keeps the first half of a table, and
/// to one its second half.
proof fn lemma_bind_first_variable(t: Seq<int>, n: nat, i: int)
    requires
        n >= 1,
        t.len() == two_pow(n),
        0 <= i < two_pow((n - 1) as nat),
    ensures
        partial_eval_spec(t, 0, 0)[i] % modulus() == t[i] % modulus(),
        partial_eval_spec(t, 0, 1)[i] % modulus() == t[i + two_pow((n - 1) as nat)] % modulus(),
{
    lemma_modulus_bounds();
    let m = modulus();
    let h = two_pow((n - 1) as nat) as int;
    lemma_log2_two_pow(n);
    assert(h == two_pow((log2(t.len()) - 1 - 0) as nat));
    lemma_basic_div(i, h);
    lemma_small_mod(i as nat, h as nat);
    assert(crate::evaluation::pair_low(i, h) == i);
    assert(i < t.len() / 2);
    let d = fsub(t[i + h], t[i]);
    assert(0 * d == 0);
    lemma_small_mod(0, m as nat);
    lemma_mod_twice(t[i], m);
    assert(1 * d == d);
    lemma_mod_twice(t[i + h] - t[i], m);
    lemma_add_mod_noop(t[i], t[i + h] - t[i], m);
    lemma_add_mod_noop(t[i], d, m);
    lemma_mod_twice(t[i] + d, m);
}

/// The first round's polynomial values at zero and one add up to the
/// summand's total over the hypercube.
pub proof fn lemma_first_round_sums_to_total(qs: Seq<Seq<Seq<int>>>, n: nat)
    requires
        sum_shape(qs, n),
        n >= 1,
    ensures
        fadd(round_value(qs, 0), round_value(qs, 1)) == hypercube_total(qs),
{
    lemma_modulus_bounds();
    let m = modulus();
    let h = two_pow((n - 1) as nat) as int;
    assert(two_pow(n) == 2 * h);
    let b0 = bind_sum(qs, 0, 0);
    let b1 = bind_sum(qs, 0, 1);
    lemma_log2_two_pow(n);
    assert(qs[0].len() >= 1 && all_hypercube(qs[0], n));
    assert(qs[0][0].len() == 2 * h);
    assert(b0[0][0].len() == h);
    assert(b1[0][0].len() == h);
    let total = Seq::new((2 * h) as nat, |i: int| sum_column(qs, i, qs.len()));
    let s0 = Seq::new(h as nat, |i: int| sum_column(b0, i, b0.len()));
    let s1 = Seq::new(h as nat, |i: int| sum_column(b1, i, b1.len()));
    assert forall|i: int| 0 <= i < h implies #[trigger] (s0[i] % m) == total.take(h)[i] % m && (
    s1[i] % m) == total.skip(h)[i] % m by {
        assert forall|q: int, t: int|
            0 <= q < b0.len() && 0 <= t < b0[q].len() implies #[trigger] (b0[q][t][i] % m)
            == qs[q][t][i] % m && b1[q][t][i] % m == qs[q][t][i + h] % m by {
            assert(qs[q].len() >= 1 && all_hypercube(qs[q], n));
            assert(qs[q][t].len() == two_pow(n));
            lemma_bind_first_variable(qs[q][t], n, i);
        }
        lemma_sum_column_congruent(b0, qs, i, i, qs.len());
        assert forall|q: int, t: int|
            0 <= q < b1.len() && 0 <= t < b1[q].len() implies #[trigger] (b1[q][t][i] % m)
            == qs[q][t][i + h] % m by {
            assert(qs[q].len() >= 1 && all_hypercube(qs[q], n));
            assert(qs[q][t].len() == two_pow(n));
            lemma_bind_first_variable(qs[q][t], n, i);
        }
        lemma_sum_column_congruent(b1, qs, i, i + h, qs.len());
    }
    assert forall|i: int| 0 <= i < h implies #[trigger] (s1[i] % m) == total.skip(h)[i] % m by {
        assert((s0[i] % m) == total.take(h)[i] % m);
    }
    lemma_int_sum_congruent(s0, total.take(h));
    lemma_int_sum_congruent(s1, total.skip(h));
    lemma_int_sum_split(total, h);
    lemma_seq_sum_int(s0);
    lemma_seq_sum_int(s1);
    lemma_seq_sum_int(total);
    assert(round_value(qs, 0) == seq_sum(s0));
    assert(round_value(qs, 1) == seq_sum(s1));
    assert(hypercube_total(qs) == seq_sum(total));
    let a0 = int_sum(s0);
    let a1 = int_sum(s1);
    let t0 = int_sum(total.take(h));
    let t1 = int_sum(total.skip(h));
    lemma_add_mod_noop(a0, a1, m);
    lemma_add_mod_noop(t0, t1, m);
}


/// `p` is the prover's sum-check proof of summand `qs` on claim `claimed`,
/// from transcript input `t`: one round per variable, each round polynomial
/// interpolated from the summand bound to the earlier challenges, each
/// challenge drawn from the transcript.
pub open spec fn sumcheck_proof_of(
    qs: Seq<Seq<Seq<int>>>,
    claimed: int,
    t: Seq<u8>,
    p: SumcheckProverProof,
) -> bool {
    let n = log2(qs[0][0].len());
    let t0 = sumcheck_start(t, claimed);
    let rounds = rounds_of(p.round_univariate_polynomials@);
    let rs = values_of(p.random_challenges@);
    &&& p.claimed_sum@ == claimed
    &&& rounds.len() == n
    &&& rs.len() == n
    &&& forall|i: int|
        0 <= i < n ==> #[trigger] rounds[i] == interpolation(
            first_points(qs[0].len() + 1),
            round_evaluations(bind_prefix(qs, rs.take(i))),
        )
    &&& forall|i: int| 0 <= i < n ==> #[trigger] rs[i] == round_challenge(t0, rounds, i as nat)
}

/// The transcript input after the verifier, or the prover, has gone through
/// the sum-check proof `p` from input `t`.
pub open spec fn sumcheck_end(t: Seq<u8>, p: SumcheckProverProof) -> Seq<u8> {
    let rounds = rounds_of(p.round_univariate_polynomials@);
    round_state(sumcheck_start(t, p.claimed_sum@), rounds, rounds.len())
}

#[derive(Clone, Debug)]
pub struct SumcheckProverProof {
    pub claimed_sum: FieldElement,
    pub round_univariate_polynomials: Vec<DensedUnivariatePolynomial>,
    pub random_challenges: Vec<FieldElement>,
}

#[derive(Clone, Debug)]
pub struct SumcheckVerifierProof {
    pub is_proof_valid: bool,
    pub random_challenges: Vec<FieldElement>,
    pub last_claimed_sum: FieldElement,
}

/// The values at `0, 1, ..., degree` of the current round's univariate
/// polynomial: the first variable bound to each point, the rest summed over
/// the hypercube.
pub fn generate_round_univariate(current_polynomial: &SumPolynomial) -> (r: Vec<FieldElement>)
    requires
        provable_shape(current_polynomial@),
        exists|n: nat| n >= 1 && sum_shape(current_polynomial@, n),
    ensures
        values_of(r@) == round_evaluations(current_polynomial@),
{
    let ghost qs = current_polynomial@;
    let ghost n = choose|n: nat| n >= 1 && sum_shape(current_polynomial@, n);
    let degree = current_polynomial.degree();
    let num_evaluations = degree + 1;
    let mut evaluations: Vec<FieldElement> = Vec::new();
    let mut i: usize = 0;
    while i < num_evaluations
        invariant
            i <= num_evaluations,
            num_evaluations == qs[0].len() + 1,
            qs == current_polynomial@,
            provable_shape(qs),
            n >= 1,
            sum_shape(qs, n),
            evaluations@.len() == i,
            forall|k: int| 0 <= k < i ==> (#[trigger] evaluations@[k])@ == round_value(qs, k),
        decreases num_evaluations - i,
    {
        let value = FieldElement::from_u64(i as u64);
        let partial_eval_sum_poly = current_polynomial.partial_evaluate(0, value);
        proof {
            lemma_bind_sum_shape(qs, n, 0, i as int);
            lemma_bind_keeps_factors(qs, i as int);
        }
        let collapsed = partial_eval_sum_poly.add_polynomials_element_wise();
        let ghost b = bind_sum(qs, 0, i as int);
        assert(collapsed@ == Seq::new(b[0][0].len(), |j: int| sum_column(b, j, b.len())));
        let mut evaluation = FieldElement::zero();
        let mut j: usize = 0;
        while j < collapsed.evaluated_values.len()
            invariant
                j <= collapsed.evaluated_values@.len(),
                evaluation@ == seq_sum(collapsed@.take(j as int)),
            decreases collapsed.evaluated_values@.len() - j,
        {
            evaluation = evaluation.add(&collapsed.evaluated_values[j]);
            proof {
                assert(collapsed@.take(j + 1).drop_last() =~= collapsed@.take(j as int));
            }
            j = j + 1;
        }
        assert(collapsed@.take(j as int) =~= collapsed@);
        evaluations.push(evaluation);
        i = i + 1;
    }
    assert(values_of(evaluations@) =~= round_evaluations(qs));
    evaluations
}

/// The little-endian encodings of the coefficients, concatenated.
pub fn univariate_to_bytes(univariate_poly: &[FieldElement]) -> (r: Vec<u8>)
    ensures
        r@ == le_concat(values_of(univariate_poly@)),
{
    let ghost s = values_of(univariate_poly@);
    let mut bytes: Vec<u8> = Vec::new();
    let mut i: usize = 0;
    while i < univariate_poly.len()
        invariant
            i <= univariate_poly@.len(),
            s == values_of(univariate_poly@),
            bytes@ == le_concat(s.take(i as int)),
        decreases univariate_poly@.len() - i,
    {
        let mut encoded = univariate_poly[i].to_bytes_le();
        bytes.append(&mut encoded);
        proof {
            assert(s.take(i + 1).drop_last() =~= s.take(i as int));
        }
        i = i + 1;
    }
    assert(s.take(i as int) =~= s);
    bytes
}

/// The big-endian encoding of a field element.
pub fn field_element_to_bytes(field_element: FieldElement) -> (r: Vec<u8>)
    ensures
        r@ == be_bytes(field_element@, 32),
{
    field_element.to_bytes_be()
}

/// The transcript input after `i` rounds depends on the first `i` round
/// polynomials only.
pub proof fn lemma_round_state_prefix(t0: Seq<u8>, a: Seq<Seq<int>>, b: Seq<Seq<int>>, i: nat)
    requires
        i <= a.len(),
        i <= b.len(),
        forall|j: int| 0 <= j < i ==> a[j] == b[j],
    ensures
        round_state(t0, a, i) == round_state(t0, b, i),
    decreases i,
{
    if i > 0 {
        lemma_round_state_prefix(t0, a, b, (i - 1) as nat);
    }
}


/// One prover round extends the round polynomials and challenges in step
/// with the transcript.
proof fn lemma_prove_step(
    qs: Seq<Seq<Seq<int>>>,
    points: Seq<int>,
    t0: Seq<u8>,
    old_rounds: Seq<Seq<int>>,
    old_rs: Seq<int>,
    new_round: Seq<int>,
    r: int,
    round: nat,
)
    requires
        old_rounds.len() == round,
        old_rs.len() == round,
        forall|i: int|
            0 <= i < round ==> #[trigger] old_rounds[i] == interpolation(
                points,
                round_evaluations(bind_prefix(qs, old_rs.take(i))),
            ),
        forall|i: int| 0 <= i < round ==> #[trigger] old_rs[i] == round_challenge(t0, old_rounds, i as nat),
        new_round == interpolation(points, round_evaluations(bind_prefix(qs, old_rs))),
        r == le_value(keccak256_of(round_state(t0, old_rounds, round) + le_concat(new_round))) % modulus(),
    ensures
        ({
            let rounds = old_rounds.push(new_round);
            let rs = old_rs.push(r);
            &&& forall|i: int|
                0 <= i <= round ==> #[trigger] rounds[i] == interpolation(
                    points,
                    round_evaluations(bind_prefix(qs, rs.take(i))),
                )
            &&& forall|i: int| 0 <= i <= round ==> #[trigger] rs[i] == round_challenge(t0, rounds, i as nat)
            &&& keccak256_of(round_state(t0, old_rounds, round) + le_concat(new_round)) == round_state(
                t0,
                rounds,
                round + 1,
            )
        }),
{
    let rounds = old_rounds.push(new_round);
    let rs = old_rs.push(r);
    assert(rs.take(round as int) =~= old_rs);
    assert forall|i: int| 0 <= i <= round implies #[trigger] rounds[i] == interpolation(
        points,
        round_evaluations(bind_prefix(qs, rs.take(i))),
    ) by {
        if i < round {
            assert(rs.take(i) =~= old_rs.take(i));
        }
    }
    lemma_round_state_prefix(t0, old_rounds, rounds, round);
    assert forall|i: int| 0 <= i <= round implies #[trigger] rs[i] == round_challenge(
        t0,
        rounds,
        i as nat,
    ) by {
        if i < round {
            lemma_round_state_prefix(t0, old_rounds, rounds, i as nat);
        }
    }
}

/// Runs the prover: one univariate polynomial per variable, interpolated from
/// its values at `0, 1, ..., degree`, each absorbed before the round's
/// challenge is drawn and bound to the first remaining variable.
pub fn prove(
    sum_polynomial: SumPolynomial,
    claimed_sum: FieldElement,
    transcript: &mut Transcript,
) -> (r: SumcheckProverProof)
    requires
        provable_shape(sum_polynomial@),
    ensures
        ({
            let qs = sum_polynomial@;
            let n = log2(qs[0][0].len());
            let t0 = sumcheck_start(old(transcript)@, claimed_sum@);
            let rounds = rounds_of(r.round_univariate_polynomials@);
            let rs = values_of(r.random_challenges@);
            &&& r.claimed_sum == claimed_sum
            &&& rounds.len() == n
            &&& rs.len() == n
            &&& forall|i: int|
                0 <= i < n ==> #[trigger] rounds[i] == interpolation(
                    first_points(qs[0].len() + 1),
                    round_evaluations(bind_prefix(qs, rs.take(i))),
                )
            &&& forall|i: int| 0 <= i < n ==> #[trigger] rs[i] == round_challenge(t0, rounds, i as nat)
            &&& final(transcript)@ == round_state(t0, rounds, n)
            &&& n >= 1 && claimed_sum@ == hypercube_total(qs) ==> round_consistent(
                t0,
                rounds,
                claimed_sum@,
                0,
            )
        }),
        sumcheck_proof_of(sum_polynomial@, claimed_sum@, old(transcript)@, r),
        final(transcript)@ == sumcheck_end(old(transcript)@, r),
{
    let ghost qs = sum_polynomial@;
    let ghost n = choose|n: nat| sum_shape(qs, n);
    proof {
        assert(qs[0].len() >= 1 && all_hypercube(qs[0], n));
        assert(qs[0][0].len() == two_pow(n));
        lemma_two_pow_pos(n);
        lemma_log2_two_pow(n);
        lemma_modulus_bounds();
    }
    let number_of_variables = sum_polynomial.number_of_variables();
    let degree = sum_polynomial.degree();
    let mut x_values: Vec<FieldElement> = Vec::new();
    let mut k: usize = 0;
    while k <= degree
        invariant
            k <= degree + 1,
            degree == qs[0].len(),
            qs[0].len() + 3 <= usize::MAX,
            x_values@.len() == k,
            forall|j: int| 0 <= j < k ==> (#[trigger] x_values@[j])@ == j,
        decreases degree + 1 - k,
    {
        x_values.push(FieldElement::from_u64(k as u64));
        k = k + 1;
    }
    assert(values_of(x_values@) =~= first_points(qs[0].len() + 1));
    assert forall|a: int, b: int|
        0 <= a < b < x_values@.len() implies (#[trigger] x_values@[a])@ != (#[trigger] x_values@[b])@ by {}
    let claimed_bytes = field_element_to_bytes(claimed_sum);
    transcript.absorb(claimed_bytes.as_slice());
    let ghost t0 = transcript@;
    let mut round_univariate_polynomials: Vec<DensedUnivariatePolynomial> = Vec::new();
    let mut random_challenges: Vec<FieldElement> = Vec::new();
    let mut current_polynomial = sum_polynomial;
    let mut round: u32 = 0;
    assert(values_of(random_challenges@).take(0) =~= Seq::<int>::empty());
    while round < number_of_variables
        invariant
            round <= number_of_variables,
            number_of_variables == n,
            provable_shape(qs),
            t0 == sumcheck_start(old(transcript)@, claimed_sum@),
            values_of(x_values@) == first_points(qs[0].len() + 1),
            forall|a: int, b: int|
                0 <= a < b < x_values@.len() ==> (#[trigger] x_values@[a])@ != (
                #[trigger] x_values@[b])@,
            current_polynomial@ == bind_prefix(qs, values_of(random_challenges@)),
            current_polynomial@.len() == qs.len(),
            forall|k2: int| 0 <= k2 < qs.len() ==> (#[trigger] current_polynomial@[k2]).len() == qs[k2].len(),
            sum_shape(current_polynomial@, (n - round) as nat),
            round_univariate_polynomials@.len() == round,
            random_challenges@.len() == round,
            forall|i: int|
                0 <= i < round ==> #[trigger] rounds_of(round_univariate_polynomials@)[i]
                    == interpolation(
                    first_points(qs[0].len() + 1),
                    round_evaluations(bind_prefix(qs, values_of(random_challenges@).take(i))),
                ),
            forall|i: int|
                0 <= i < round ==> #[trigger] values_of(random_challenges@)[i] == round_challenge(
                    t0,
                    rounds_of(round_univariate_polynomials@),
                    i as nat,
                ),
            transcript@ == round_state(t0, rounds_of(round_univariate_polynomials@), round as nat),
            round >= 1 ==> uni_eval(rounds_of(round_univariate_polynomials@)[0], 0) == round_value(
                qs,
                0,
            ) && uni_eval(rounds_of(round_univariate_polynomials@)[0], 1) == round_value(qs, 1),
        decreases number_of_variables - round,
    {
        let ghost cur = current_polynomial@;
        let ghost old_rounds = rounds_of(round_univariate_polynomials@);
        let ghost old_rs = values_of(random_challenges@);
        proof {
            assert(sum_shape(cur, (n - round) as nat));
            assert(provable_shape(cur));
        }
        let univariate = generate_round_univariate(&current_polynomial);
        assert(values_of(univariate@).len() == univariate@.len());
        assert(cur[0].len() == qs[0].len());
        assert(values_of(x_values@).len() == x_values@.len());
        let univariate_poly = DensedUnivariatePolynomial::lagrange_interpolate(
            x_values.as_slice(),
            univariate.as_slice(),
        );
        let ghost new_round = univariate_poly@;
        proof {
            if round == 0 {
                assert(values_of(random_challenges@) =~= Seq::<int>::empty());
                assert(cur == qs);
                assert(qs[0].len() > 1);
                assert(values_of(x_values@).len() == qs[0].len() + 1);
                assert(values_of(x_values@)[0] == 0 && values_of(x_values@)[1] == 1);
                assert(x_values@[0]@ == 0 && x_values@[1]@ == 1);
                assert(uni_eval(new_round, 0) == univariate@[0]@);
                assert(uni_eval(new_round, 1) == univariate@[1]@);
                assert(univariate@[0]@ == values_of(univariate@)[0]);
                assert(univariate@[1]@ == values_of(univariate@)[1]);
            }
        }
        let round_bytes = univariate_to_bytes(univariate_poly.coefficients.as_slice());
        transcript.absorb(round_bytes.as_slice());
        round_univariate_polynomials.push(univariate_poly);
        let random_challenge = transcript.random_challenge_as_field_element();
        current_polynomial = current_polynomial.partial_evaluate(0, random_challenge);
        random_challenges.push(random_challenge);
        proof {
            assert(rounds_of(round_univariate_polynomials@) =~= old_rounds.push(new_round));
            assert(values_of(random_challenges@) =~= old_rs.push(random_challenge@));
            lemma_prove_step(
                qs,
                first_points(qs[0].len() + 1),
                t0,
                old_rounds,
                old_rs,
                new_round,
                random_challenge@,
                round as nat,
            );
            lemma_bind_sum_shape(cur, (n - round) as nat, 0, random_challenge@);
            lemma_bind_keeps_factors(cur, random_challenge@);
            assert(values_of(random_challenges@).drop_last() =~= old_rs);
            if round >= 1 {
                assert(rounds_of(round_univariate_polynomials@)[0] == old_rounds[0]);
            }
        }
        round = round + 1;
    }
    proof {
        if n >= 1 {
            lemma_first_round_sums_to_total(qs, n);
        }
    }
    SumcheckProverProof { claimed_sum, round_univariate_polynomials, random_challenges }
}

/// Runs the verifier: each round polynomial must sum over `{0, 1}` to the
/// running claim; its value at the round's challenge becomes the next claim.
/// Stops at the first inconsistent round.
pub fn verify(proof: &SumcheckProverProof, transcript: &mut Transcript) -> (r: SumcheckVerifierProof)
    ensures
        ({
            let t0 = sumcheck_start(old(transcript)@, proof.claimed_sum@);
            let rounds = rounds_of(proof.round_univariate_polynomials@);
            let claimed = proof.claimed_sum@;
            let m = rounds.len();
            &&& r.is_proof_valid == forall|i: nat|
                i < m ==> #[trigger] round_consistent(t0, rounds, claimed, i)
            &&& r.is_proof_valid ==> {
                &&& values_of(r.random_challenges@) == Seq::new(
                    m,
                    |i: int| round_challenge(t0, rounds, i as nat),
                )
                &&& r.last_claimed_sum@ == expected_sum(t0, rounds, claimed, m)
                &&& final(transcript)@ == round_state(t0, rounds, m)
            }
            &&& !r.is_proof_valid ==> {
                &&& r.random_challenges@.len() == 0
                &&& exists|k: nat|
                    #[trigger] stops_at(
                        t0,
                        rounds,
                        claimed,
                        k,
                        r.last_claimed_sum@,
                        final(transcript)@,
                    )
            }
        }),
{
    let claimed_bytes = field_element_to_bytes(proof.claimed_sum);
    transcript.absorb(claimed_bytes.as_slice());
    let ghost t0 = transcript@;
    let ghost rounds = rounds_of(proof.round_univariate_polynomials@);
    let ghost claimed = proof.claimed_sum@;
    let mut current_sum = proof.claimed_sum;
    let mut random_challenges: Vec<FieldElement> = Vec::new();
    let mut i: usize = 0;
    assert(values_of(random_challenges@) =~= Seq::new(0, |j: int| round_challenge(t0, rounds, j as nat)));
    while i < proof.round_univariate_polynomials.len()
        invariant
            i <= rounds.len(),
            rounds == rounds_of(proof.round_univariate_polynomials@),
            t0 == sumcheck_start(old(transcript)@, claimed),
            claimed == proof.claimed_sum@,
            forall|j: nat| j < i ==> #[trigger] round_consistent(t0, rounds, claimed, j),
            values_of(random_challenges@) == Seq::new(
                i as nat,
                |j: int| round_challenge(t0, rounds, j as nat),
            ),
            current_sum@ == expected_sum(t0, rounds, claimed, i as nat),
            transcript@ == round_state(t0, rounds, i as nat),
        decreases rounds.len() - i,
    {
        let round_polynomial = &proof.round_univariate_polynomials[i];
        assert(rounds[i as int] == round_polynomial@);
        let eval_at_zero = round_polynomial.evaluate(FieldElement::zero());
        let eval_at_one = round_polynomial.evaluate(FieldElement::one());
        if !eval_at_zero.add(&eval_at_one).equals(&current_sum) {
            let ghost k = i as nat;
            assert(!round_consistent(t0, rounds, claimed, k));
            assert(stops_at(t0, rounds, claimed, k, current_sum@, transcript@));
            assert(exists|k2: nat| #[trigger] stops_at(t0, rounds, claimed, k2, current_sum@, transcript@));
            assert(sumcheck_start(old(transcript)@, proof.claimed_sum@) == t0);
            let r = SumcheckVerifierProof {
                is_proof_valid: false,
                random_challenges: Vec::new(),
                last_claimed_sum: current_sum,
            };
            assert(r.last_claimed_sum@ == current_sum@);
            assert(exists|k2: nat|
                #[trigger] stops_at(
                    sumcheck_start(old(transcript)@, proof.claimed_sum@),
                    rounds_of(proof.round_univariate_polynomials@),
                    proof.claimed_sum@,
                    k2,
                    r.last_claimed_sum@,
                    transcript@,
                ));
            return r;
        }
        let ghost old_rs = values_of(random_challenges@);
        let round_bytes = univariate_to_bytes(round_polynomial.coefficients.as_slice());
        transcript.absorb(round_bytes.as_slice());
        let random_challenge = transcript.random_challenge_as_field_element();
        assert(random_challenge@ == round_challenge(t0, rounds, i as nat));
        current_sum = round_polynomial.evaluate(random_challenge);
        random_challenges.push(random_challenge);
        assert(values_of(random_challenges@) =~= old_rs.push(random_challenge@));
        i = i + 1;
        assert(values_of(random_challenges@) =~= Seq::new(
            i as nat,
            |j: int| round_challenge(t0, rounds, j as nat),
        ));
    }
    SumcheckVerifierProof { is_proof_valid: true, random_challenges, last_claimed_sum: current_sum }
}

} // verus!
