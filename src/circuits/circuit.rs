//! Circuits: forward evaluation and the wiring predicates of each layer.
use crate::circuits::gate::{operation_spec, Gate, Operation};
use crate::circuits::layer::Layer;
use crate::evaluation::{
    copy_values, two_pow, two_pow_exec, values_of, lemma_two_pow_adds, lemma_two_pow_pos,
    MultilinearPolynomialEV,
};
use crate::field::{fadd, FieldElement};
use vstd::arithmetic::div_mod::{lemma_basic_div, lemma_div_denominator};
use vstd::prelude::*;
use vstd::string::*;

verus! {

/// The gates of each layer of a list.
pub open spec fn gates_of(layers: Seq<Layer>) -> Seq<Seq<Gate>> {
    layers.map_values(|l: Layer| l.gates@)
}

/// The largest output index among the first `k` gates (zero for none).
pub open spec fn max_output(gates: Seq<Gate>, k: nat) -> nat
    decreases k,
{
    if k == 0 {
        0
    } else {
        let m = max_output(gates, (k - 1) as nat);
        if gates[k - 1].output as nat > m {
            gates[k - 1].output as nat
        } else {
            m
        }
    }
}

/// The number of entries a layer's gates write: one past the largest output.
pub open spec fn layer_width(gates: Seq<Gate>) -> nat {
    max_output(gates, gates.len()) + 1
}

/// The sum of the contributions of the first `k` gates to entry `pos`.
pub open spec fn gate_sum(gates: Seq<Gate>, input: Seq<int>, pos: int, k: nat) -> int
    decreases k,
{
    if k == 0 {
        0
    } else {
        let g = gates[k - 1];
        let prev = gate_sum(gates, input, pos, (k - 1) as nat);
        if g.output == pos {
            fadd(prev, operation_spec(g.operation, input[g.left as int], input[g.right as int]))
        } else {
            prev
        }
    }
}

/// A layer's values: every entry accumulates the gates that write to it;
/// entries that no gate writes are zero.
pub open spec fn layer_output(gates: Seq<Gate>, input: Seq<int>) -> Seq<int> {
    Seq::new(layer_width(gates), |pos: int| gate_sum(gates, input, pos, gates.len()))
}

/// The values of layer `k` on `input`; `k == gs.len()` is the input itself.
pub open spec fn layer_values(gs: Seq<Seq<Gate>>, input: Seq<int>, k: nat) -> Seq<int>
    decreases gs.len() - k,
{
    if k >= gs.len() {
        input
    } else {
        layer_output(gs[k as int], layer_values(gs, input, k + 1))
    }
}

/// Every gate reads entries that the layer below has, and the outputs leave
/// room for the layer's width.
pub open spec fn gates_fit(gates: Seq<Gate>, n: nat) -> bool {
    forall|j: int|
        0 <= j < gates.len() ==> (#[trigger] gates[j]).left < n && gates[j].right < n
            && gates[j].output < usize::MAX
}

/// A circuit that can be evaluated on an input of the length of `input`.
pub open spec fn circuit_fits(gs: Seq<Seq<Gate>>, input: Seq<int>) -> bool {
    forall|k: int|
        0 <= k < gs.len() ==> gates_fit(
            #[trigger] gs[k],
            layer_values(gs, input, (k + 1) as nat).len(),
        )
}

/// The number of binary digits of `n` (one for zero).
pub open spec fn binary_length(n: nat) -> nat
    decreases n,
{
    if n <= 1 {
        1
    } else {
        1 + binary_length(n / 2)
    }
}

/// `n` in binary, most significant digit first, padded with zeros on the
/// left to at least `w` digits.
pub open spec fn binary_digits(n: nat, w: nat) -> Seq<char> {
    let len = if w > binary_length(n) {
        w
    } else {
        binary_length(n)
    };
    Seq::new(len, |i: int| if (n / two_pow((len - 1 - i) as nat)) % 2 == 1 { '1' } else { '0' })
}

/// The number whose binary digits, most significant first, are `s` (any
/// character but `'1'` counting as zero).
pub open spec fn binary_value(s: Seq<char>) -> int
    decreases s.len(),
{
    if s.len() == 0 {
        0
    } else {
        binary_value(s.drop_last()) * 2 + if s.last() == '1' {
            1int
        } else {
            0
        }
    }
}

/// The number of variables of the wiring predicates of a layer.
pub open spec fn layer_variables(layer_index: nat) -> nat {
    if layer_index == 0 {
        3
    } else {
        3 * layer_index + 2
    }
}

/// The hypercube point of a gate of layer `layer_index` writing `a` from
/// `b` and `c`: the binary digits of `a` (at least `layer_index` of them),
/// `b` and `c` (at least `layer_index + 1` each) read as one number, or
/// zero when that number does not fit a `usize`.
pub open spec fn gate_point(layer_index: nat, a: nat, b: nat, c: nat) -> int {
    let s = binary_digits(a, layer_index) + binary_digits(b, layer_index + 1) + binary_digits(
        c,
        layer_index + 1,
    );
    if binary_value(s) <= usize::MAX {
        binary_value(s)
    } else {
        0
    }
}

/// The wiring predicate of operation `op`: one at the points of the gates
/// with that operation, zero elsewhere.
pub open spec fn wiring_table(gates: Seq<Gate>, layer_index: nat, op: Operation, size: nat) -> Seq<
    int,
> {
    Seq::new(
        size,
        |p: int|
            if exists|j: int|
                0 <= j < gates.len() && (#[trigger] gates[j]).operation == op && gate_point(
                    layer_index,
                    gates[j].output as nat,
                    gates[j].left as nat,
                    gates[j].right as nat,
                ) == p {
                1
            } else {
                0
            },
    )
}

proof fn lemma_bit_length_bound(n: nat)
    ensures
        n < two_pow(binary_length(n)),
        binary_length(n) >= 1,
    decreases n,
{
    if n > 1 {
        lemma_bit_length_bound(n / 2);
    } else {
        assert(two_pow(0) == 1);
        assert(two_pow(1) == 2);
    }
}

proof fn lemma_div_two_pow_step(n: nat, k: nat)
    ensures
        (n / two_pow(k)) / 2 == n / two_pow(k + 1),
{
    lemma_two_pow_pos(k);
    assert(two_pow(k + 1) == two_pow(k) * 2);
    lemma_div_denominator(n as int, two_pow(k) as int, 2);
}

proof fn lemma_high_digits_zero(n: nat, k: nat)
    requires
        k >= binary_length(n),
    ensures
        n / two_pow(k) == 0,
{
    lemma_bit_length_bound(n);
    lemma_two_pow_adds(binary_length(n), (k - binary_length(n)) as nat);
    lemma_two_pow_pos((k - binary_length(n)) as nat);
    assert(two_pow(binary_length(n)) <= two_pow(binary_length(n)) * two_pow((k - binary_length(n)) as nat))
        by (nonlinear_arith)
        requires two_pow((k - binary_length(n)) as nat) >= 1;
    lemma_basic_div(n as int, two_pow(k) as int);
}

proof fn lemma_binary_value_prefix(s: Seq<char>, j: nat)
    requires
        j <= s.len(),
    ensures
        0 <= binary_value(s.take(j as int)) <= binary_value(s),
    decreases s.len() - j,
{
    if j < s.len() {
        lemma_binary_value_prefix(s, j + 1);
        assert(s.take(j as int + 1).drop_last() =~= s.take(j as int));
        lemma_binary_value_nonneg(s.take(j as int));
    } else {
        assert(s.take(j as int) =~= s);
        lemma_binary_value_nonneg(s);
    }
}

proof fn lemma_binary_value_nonneg(s: Seq<char>)
    ensures
        binary_value(s) >= 0,
    decreases s.len(),
{
    if s.len() > 0 {
        lemma_binary_value_nonneg(s.drop_last());
    }
}

/// The number of variables of the wiring predicates of layer `layer_index`:
/// three for the output layer, else `layer_index` bits for the output and
/// `layer_index + 1` bits for each input.
pub fn num_of_layer_variables(layer_index: usize) -> (r: usize)
    requires
        3 * layer_index + 2 <= usize::MAX,
    ensures
        r == layer_variables(layer_index as nat),
{
    if layer_index == 0 {
        return 3;
    }
    let var_a_length = layer_index;
    let var_b_length = var_a_length + 1;
    let var_c_length = var_a_length + 1;
    var_a_length + var_b_length + var_c_length
}

/// `decimal_number` in binary, padded with zeros on the left to
/// `bit_length` digits.
pub fn convert_decimal_to_padded_binary(decimal_number: usize, bit_length: usize) -> (r: String)
    ensures
        r@ == binary_digits(decimal_number as nat, bit_length as nat),
{
    let ghost n = decimal_number as nat;
    let mut digits: Vec<bool> = Vec::new();
    let mut m = decimal_number;
    digits.push(m % 2 == 1);
    proof {
        assert(two_pow(0) == 1);
        assert(n / 1 == n);
        assert(digits@[0] == ((n / two_pow(0)) % 2 == 1));
    }
    while m > 1
        invariant
            digits@.len() >= 1,
            m == n / two_pow((digits@.len() - 1) as nat),
            digits@.len() - 1 + binary_length(m as nat) == binary_length(n),
            forall|j: int|
                0 <= j < digits@.len() ==> (#[trigger] digits@[j]) == ((n / two_pow(j as nat)) % 2
                    == 1),
        decreases m,
    {
        proof {
            lemma_div_two_pow_step(n, (digits@.len() - 1) as nat);
        }
        m = m / 2;
        digits.push(m % 2 == 1);
    }
    let ghost len = if bit_length as nat > binary_length(n) {
        bit_length as nat
    } else {
        binary_length(n)
    };
    let total = if bit_length > digits.len() {
        bit_length
    } else {
        digits.len()
    };
    assert(total == len);
    assert(binary_digits(n, bit_length as nat).len() == total);
    let mut s = String::new();
    let mut i: usize = 0;
    while i < total
        invariant
            i <= total,
            binary_digits(n, bit_length as nat).len() == total,
            digits@.len() == binary_length(n),
            forall|j: int|
                0 <= j < digits@.len() ==> (#[trigger] digits@[j]) == ((n / two_pow(j as nat)) % 2
                    == 1),
            s@ == binary_digits(n, bit_length as nat).take(i as int),
        decreases total - i,
    {
        let idx = total - 1 - i;
        proof {
            reveal_strlit("1");
            reveal_strlit("0");
            if idx >= digits@.len() {
                lemma_high_digits_zero(n, idx as nat);
            }
        }
        let ghost before = s@;
        let ghost digit = binary_digits(n, bit_length as nat)[i as int];
        assert(digit == if (n / two_pow(idx as nat)) % 2 == 1 { '1' } else { '0' });
        if idx < digits.len() && digits[idx] {
            s.append("1");
            assert(s@ == before + seq!['1']);
        } else {
            s.append("0");
            assert(s@ == before + seq!['0']);
        }
        i = i + 1;
        assert(s@ =~= binary_digits(n, bit_length as nat).take(i as int));
    }
    assert(binary_digits(n, bit_length as nat).take(i as int) =~= binary_digits(
        n,
        bit_length as nat,
    ));
    s
}

/// `decimal_number` in binary, padded with zeros on the left to
/// `bit_length` digits, and to one digit at least.
pub fn transform_decimal_to_padded_binary(decimal_number: usize, bit_length: usize) -> (r: String)
    ensures
        r@ == binary_digits(
            decimal_number as nat,
            if bit_length == 0 {
                1
            } else {
                bit_length as nat
            },
        ),
{
    let mut width = bit_length;
    if width == 0 {
        width = 1;
    }
    convert_decimal_to_padded_binary(decimal_number, width)
}

/// The hypercube point of a gate triple: the padded binary digits of
/// `variable_a`, `variable_b` and `variable_c` read as one number.
pub fn convert_to_binary_and_to_decimal(
    layer_index: usize,
    variable_a: usize,
    variable_b: usize,
    variable_c: usize,
) -> (r: usize)
    requires
        layer_index < usize::MAX,
    ensures
        r as int == gate_point(
            layer_index as nat,
            variable_a as nat,
            variable_b as nat,
            variable_c as nat,
        ),
{
    let a_in_binary = convert_decimal_to_padded_binary(variable_a, layer_index);
    let b_in_binary = convert_decimal_to_padded_binary(variable_b, layer_index + 1);
    let c_in_binary = convert_decimal_to_padded_binary(variable_c, layer_index + 1);
    let combined_binary = a_in_binary.concat(b_in_binary.as_str()).concat(c_in_binary.as_str());
    let ghost s = combined_binary@;
    assert(s == binary_digits(variable_a as nat, layer_index as nat) + binary_digits(
        variable_b as nat,
        layer_index as nat + 1,
    ) + binary_digits(variable_c as nat, layer_index as nat + 1));
    let n = combined_binary.as_str().unicode_len();
    let mut value: usize = 0;
    let mut i: usize = 0;
    while i < n
        invariant
            i <= n,
            n == s.len(),
            s == combined_binary@,
            s == binary_digits(variable_a as nat, layer_index as nat) + binary_digits(
                variable_b as nat,
                layer_index as nat + 1,
            ) + binary_digits(variable_c as nat, layer_index as nat + 1),
            value as int == binary_value(s.take(i as int)),
        decreases n - i,
    {
        let ch = combined_binary.as_str().get_char(i);
        let digit: u128 = if ch == '1' {
            1
        } else {
            0
        };
        let next: u128 = value as u128 * 2 + digit;
        assert(s.take(i + 1).drop_last() =~= s.take(i as int));
        assert(s.take(i + 1).last() == ch);
        assert(binary_value(s.take(i + 1)) == next);
        if next > usize::MAX as u128 {
            proof {
                lemma_binary_value_prefix(s, (i + 1) as nat);
                assert(binary_value(s) > usize::MAX);
            }
            return 0;
        }
        value = next as usize;
        i = i + 1;
    }
    assert(s.take(i as int) =~= s);
    value
}


/// Gates that write the same entry of a layer add up there: with two gates
/// writing entry `k`, the entry holds the sum of their two results, neither
/// overwriting the other.
pub proof fn lemma_shared_output_adds(g1: Gate, g2: Gate, input: Seq<int>)
    requires
        g1.output == g2.output,
    ensures
        layer_output(seq![g1, g2], input)[g1.output as int] == fadd(
            operation_spec(g1.operation, input[g1.left as int], input[g1.right as int]),
            operation_spec(g2.operation, input[g2.left as int], input[g2.right as int]),
        ),
{
    let gates = seq![g1, g2];
    let v1 = operation_spec(g1.operation, input[g1.left as int], input[g1.right as int]);
    assert(gates[0] == g1 && gates[1] == g2);
    assert(gates.len() == 2);
    assert(max_output(gates, 1) >= g1.output);
    assert(layer_width(gates) > g1.output);
    assert(gate_sum(gates, input, g1.output as int, 0) == 0);
    assert(gate_sum(gates, input, g1.output as int, 1) == fadd(0, v1));
    let m = crate::field::modulus();
    assert(v1 == v1 % m) by {
        match g1.operation {
            Operation::ADD => {
                vstd::arithmetic::div_mod::lemma_mod_twice(
                    input[g1.left as int] + input[g1.right as int],
                    m,
                );
            },
            Operation::MUL => {
                vstd::arithmetic::div_mod::lemma_mod_twice(
                    input[g1.left as int] * input[g1.right as int],
                    m,
                );
            },
        }
    }
}

pub struct Circuit {
    pub layers: Vec<Layer>,
}

pub struct CircuitEvaluationResult {
    pub output: Vec<FieldElement>,
    pub layer_evaluations: Vec<Vec<FieldElement>>,
}

impl View for Circuit {
    type V = Seq<Seq<Gate>>;

    open spec fn view(&self) -> Seq<Seq<Gate>> {
        gates_of(self.layers@)
    }
}

/// One layer evaluated on `input`: each gate's result accumulated into its
/// output entry.
fn evaluate_layer(gates: &Vec<Gate>, input: &Vec<FieldElement>) -> (r: Vec<FieldElement>)
    requires
        gates_fit(gates@, input@.len()),
    ensures
        values_of(r@) == layer_output(gates@, values_of(input@)),
{
    let ghost inp = values_of(input@);
    let mut max_output_index: usize = 0;
    let mut k: usize = 0;
    while k < gates.len()
        invariant
            k <= gates@.len(),
            gates_fit(gates@, input@.len()),
            max_output_index as nat == max_output(gates@, k as nat),
            max_output_index < usize::MAX,
            forall|j: int| 0 <= j < k ==> (#[trigger] gates@[j]).output <= max_output_index,
        decreases gates@.len() - k,
    {
        if gates[k].output > max_output_index {
            max_output_index = gates[k].output;
        }
        k = k + 1;
    }
    let width = max_output_index + 1;
    let mut resultant_evaluations: Vec<FieldElement> = Vec::new();
    let mut p: usize = 0;
    while p < width
        invariant
            p <= width,
            resultant_evaluations@.len() == p,
            forall|q: int| 0 <= q < p ==> (#[trigger] resultant_evaluations@[q])@ == 0,
        decreases width - p,
    {
        resultant_evaluations.push(FieldElement::zero());
        p = p + 1;
    }
    let mut k: usize = 0;
    while k < gates.len()
        invariant
            k <= gates@.len(),
            gates_fit(gates@, input@.len()),
            inp == values_of(input@),
            width == layer_width(gates@),
            forall|j: int| 0 <= j < gates@.len() ==> (#[trigger] gates@[j]).output < width,
            resultant_evaluations@.len() == width,
            forall|q: int|
                0 <= q < width ==> (#[trigger] resultant_evaluations@[q])@ == gate_sum(
                    gates@,
                    inp,
                    q,
                    k as nat,
                ),
        decreases gates@.len() - k,
    {
        let gate = gates[k];
        assert(gates@[k as int] == gate);
        let left_index_value = input[gate.left];
        let right_index_value = input[gate.right];
        let current_gate_evaluation = gate.operation.operations(
            &left_index_value,
            &right_index_value,
        );
        let updated = resultant_evaluations[gate.output].add(&current_gate_evaluation);
        resultant_evaluations[gate.output] = updated;
        k = k + 1;
    }
    assert(values_of(resultant_evaluations@) =~= layer_output(gates@, inp));
    resultant_evaluations
}

/// Adding one gate to the list changes its operation's table at its point
/// only, to one.
proof fn lemma_wiring_table_push(
    gates: Seq<Gate>,
    g: Gate,
    layer_index: nat,
    op: Operation,
    size: nat,
)
    ensures
        ({
            let before = wiring_table(gates, layer_index, op, size);
            let after = wiring_table(gates.push(g), layer_index, op, size);
            let p = gate_point(layer_index, g.output as nat, g.left as nat, g.right as nat);
            &&& after.len() == size
            &&& forall|q: int|
                0 <= q < size ==> #[trigger] after[q] == if g.operation == op && q == p {
                    1
                } else {
                    before[q]
                }
        }),
{
    let gs = gates.push(g);
    let p = gate_point(layer_index, g.output as nat, g.left as nat, g.right as nat);
    assert forall|q: int| 0 <= q < size implies #[trigger] wiring_table(gs, layer_index, op, size)[q]
        == if g.operation == op && q == p {
        1
    } else {
        wiring_table(gates, layer_index, op, size)[q]
    } by {
        if g.operation == op && q == p {
            assert(gs[gates.len() as int] == g);
        } else {
            if exists|j: int|
                0 <= j < gs.len() && (#[trigger] gs[j]).operation == op && gate_point(
                    layer_index,
                    gs[j].output as nat,
                    gs[j].left as nat,
                    gs[j].right as nat,
                ) == q {
                let j = choose|j: int|
                    0 <= j < gs.len() && (#[trigger] gs[j]).operation == op && gate_point(
                        layer_index,
                        gs[j].output as nat,
                        gs[j].left as nat,
                        gs[j].right as nat,
                    ) == q;
                assert(j < gates.len());
                assert(gates[j] == gs[j]);
            }
            if exists|j: int|
                0 <= j < gates.len() && (#[trigger] gates[j]).operation == op && gate_point(
                    layer_index,
                    gates[j].output as nat,
                    gates[j].left as nat,
                    gates[j].right as nat,
                ) == q {
                let j = choose|j: int|
                    0 <= j < gates.len() && (#[trigger] gates[j]).operation == op && gate_point(
                        layer_index,
                        gates[j].output as nat,
                        gates[j].left as nat,
                        gates[j].right as nat,
                    ) == q;
                assert(gs[j] == gates[j]);
            }
        }
    }
}

impl Circuit {
    pub fn new(layers: Vec<Layer>) -> (r: Self)
        ensures
            r.layers@ == layers@,
    {
        Circuit { layers }
    }

    #[verifier::rlimit(40)]
    /// Evaluates the circuit on `values`, from the layer next to the input up
    /// to the output layer. The result holds every layer's values, output
    /// first and input last.
    pub fn evaluate(&mut self, values: Vec<FieldElement>) -> (r: CircuitEvaluationResult)
        requires
            circuit_fits(old(self)@, values_of(values@)),
        ensures
            *final(self) == *old(self),
            r.layer_evaluations@.len() == old(self)@.len() + 1,
            forall|k: int|
                0 <= k <= old(self)@.len() ==> values_of(
                    (#[trigger] r.layer_evaluations@[k])@,
                ) == layer_values(old(self)@, values_of(values@), k as nat),
            values_of(r.output@) == layer_values(old(self)@, values_of(values@), 0),
    {
        let ghost gs = self@;
        let ghost inp = values_of(values@);
        let n_layers = self.layers.len();
        let mut current_input = values;
        let mut reversed_evaluations: Vec<Vec<FieldElement>> = Vec::new();
        reversed_evaluations.push(copy_values(current_input.as_slice()));
        let mut idx = n_layers;
        while idx > 0
            invariant
                idx <= n_layers,
                n_layers == gs.len(),
                gs == self@,
                circuit_fits(gs, inp),
                reversed_evaluations@.len() == n_layers - idx + 1,
                forall|j: int|
                    0 <= j < reversed_evaluations@.len() ==> values_of(
                        (#[trigger] reversed_evaluations@[j])@,
                    ) == layer_values(gs, inp, (n_layers - j) as nat),
                values_of(current_input@) == layer_values(gs, inp, idx as nat),
            decreases idx,
        {
            let layer = &self.layers[idx - 1];
            assert(gs[idx - 1] == layer.gates@);
            assert(gates_fit(gs[idx - 1], layer_values(gs, inp, idx as nat).len()));
            let next = evaluate_layer(&layer.gates, &current_input);
            current_input = next;
            reversed_evaluations.push(copy_values(current_input.as_slice()));
            idx = idx - 1;
        }
        let mut layer_evaluations: Vec<Vec<FieldElement>> = Vec::new();
        let mut j: usize = reversed_evaluations.len();
        while j > 0
            invariant
                j <= n_layers + 1,
                n_layers == gs.len(),
                reversed_evaluations@.len() == n_layers + 1,
                forall|i: int|
                    0 <= i < reversed_evaluations@.len() ==> values_of(
                        (#[trigger] reversed_evaluations@[i])@,
                    ) == layer_values(gs, inp, (n_layers - i) as nat),
                layer_evaluations@.len() == n_layers + 1 - j,
                forall|i: int|
                    0 <= i < layer_evaluations@.len() ==> values_of(
                        (#[trigger] layer_evaluations@[i])@,
                    ) == layer_values(gs, inp, i as nat),
            decreases j,
        {
            j = j - 1;
            layer_evaluations.push(copy_values(reversed_evaluations[j].as_slice()));
        }
        let output = copy_values(layer_evaluations[0].as_slice());
        CircuitEvaluationResult { output, layer_evaluations }
    }

    /// The values of layer `layer_index` as a multilinear polynomial.
    pub fn w_i_polynomial(
        circuit_evaluation: &CircuitEvaluationResult,
        layer_index: usize,
    ) -> (r: MultilinearPolynomialEV)
        requires
            layer_index < circuit_evaluation.layer_evaluations@.len(),
        ensures
            r.evaluated_values@ == circuit_evaluation.layer_evaluations@[layer_index as int]@,
    {
        MultilinearPolynomialEV::new(circuit_evaluation.layer_evaluations[layer_index].as_slice())
    }

    /// The wiring predicates of layer `layer_index`: over the variables of the
    /// output index followed by those of the two input indices, one at each
    /// addition (first table) or multiplication (second table) gate.
    pub fn add_i_and_mul_i_mle(&mut self, layer_index: usize) -> (r: (
        MultilinearPolynomialEV,
        MultilinearPolynomialEV,
    ))
        requires
            layer_index < old(self)@.len(),
            3 * layer_index + 2 <= usize::MAX,
            two_pow(layer_variables(layer_index as nat)) <= usize::MAX,
            forall|j: int|
                0 <= j < old(self)@[layer_index as int].len() ==> gate_point(
                    layer_index as nat,
                    (#[trigger] old(self)@[layer_index as int][j]).output as nat,
                    old(self)@[layer_index as int][j].left as nat,
                    old(self)@[layer_index as int][j].right as nat,
                ) < two_pow(layer_variables(layer_index as nat)),
        ensures
            *final(self) == *old(self),
            r.0@ == wiring_table(
                old(self)@[layer_index as int],
                layer_index as nat,
                Operation::ADD,
                two_pow(layer_variables(layer_index as nat)),
            ),
            r.1@ == wiring_table(
                old(self)@[layer_index as int],
                layer_index as nat,
                Operation::MUL,
                two_pow(layer_variables(layer_index as nat)),
            ),
    {
        let ghost gates = self@[layer_index as int];
        let number_of_layer_variables = num_of_layer_variables(layer_index);
        let boolean_hypercube_combinations = two_pow_exec(number_of_layer_variables, usize::MAX);
        let ghost size = boolean_hypercube_combinations as nat;
        let mut add_i_values: Vec<FieldElement> = Vec::new();
        let mut mul_i_values: Vec<FieldElement> = Vec::new();
        let mut p: usize = 0;
        while p < boolean_hypercube_combinations
            invariant
                p <= boolean_hypercube_combinations,
                add_i_values@.len() == p,
                mul_i_values@.len() == p,
                forall|q: int| 0 <= q < p ==> (#[trigger] add_i_values@[q])@ == 0,
                forall|q: int| 0 <= q < p ==> (#[trigger] mul_i_values@[q])@ == 0,
            decreases boolean_hypercube_combinations - p,
        {
            add_i_values.push(FieldElement::zero());
            mul_i_values.push(FieldElement::zero());
            p = p + 1;
        }
        assert(values_of(add_i_values@) =~= wiring_table(
            gates.take(0),
            layer_index as nat,
            Operation::ADD,
            size,
        ));
        assert(values_of(mul_i_values@) =~= wiring_table(
            gates.take(0),
            layer_index as nat,
            Operation::MUL,
            size,
        ));
        let layer = &self.layers[layer_index];
        assert(layer.gates@ == gates);
        assert(add_i_values@.len() == size);
        let mut k: usize = 0;
        while k < layer.gates.len()
            invariant
                k <= gates.len(),
                layer.gates@ == gates,
                layer_index < usize::MAX,
                size == boolean_hypercube_combinations,
                add_i_values@.len() == size,
                mul_i_values@.len() == size,
                forall|j: int|
                    0 <= j < gates.len() ==> gate_point(
                        layer_index as nat,
                        (#[trigger] gates[j]).output as nat,
                        gates[j].left as nat,
                        gates[j].right as nat,
                    ) < size,
                values_of(add_i_values@) == wiring_table(
                    gates.take(k as int),
                    layer_index as nat,
                    Operation::ADD,
                    size,
                ),
                values_of(mul_i_values@) == wiring_table(
                    gates.take(k as int),
                    layer_index as nat,
                    Operation::MUL,
                    size,
                ),
            decreases gates.len() - k,
        {
            let gate = layer.gates[k];
            assert(gates[k as int] == gate);
            proof {
                assert(gates.take(k + 1) =~= gates.take(k as int).push(gate));
                lemma_wiring_table_push(
                    gates.take(k as int),
                    gate,
                    layer_index as nat,
                    Operation::ADD,
                    size,
                );
                lemma_wiring_table_push(
                    gates.take(k as int),
                    gate,
                    layer_index as nat,
                    Operation::MUL,
                    size,
                );
            }
            let position_index = convert_to_binary_and_to_decimal(
                layer_index,
                gate.output,
                gate.left,
                gate.right,
            );
            match gate.operation {
                Operation::ADD => {
                    add_i_values[position_index] = FieldElement::one();
                },
                Operation::MUL => {
                    mul_i_values[position_index] = FieldElement::one();
                },
            }
            k = k + 1;
            assert(values_of(add_i_values@) =~= wiring_table(
                gates.take(k as int),
                layer_index as nat,
                Operation::ADD,
                size,
            ));
            assert(values_of(mul_i_values@) =~= wiring_table(
                gates.take(k as int),
                layer_index as nat,
                Operation::MUL,
                size,
            ));
        }
        assert(gates.take(k as int) =~= gates);
        let add_i_polynomial = MultilinearPolynomialEV { evaluated_values: add_i_values };
        let mul_i_polynomial = MultilinearPolynomialEV { evaluated_values: mul_i_values };
        (add_i_polynomial, mul_i_polynomial)
    }
}

} // verus!
