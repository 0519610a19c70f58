//! One layer of a circuit: its gates.
use crate::circuits::gate::Gate;
use vstd::prelude::*;

verus! {

pub struct Layer {
    pub gates: Vec<Gate>,
}

impl Layer {
    pub fn new(gates: Vec<Gate>) -> (r: Self)
        ensures
            r.gates@ == gates@,
    {
        Layer { gates }
    }

    /// Adds a gate at the end of the layer.
    pub fn update_layer(&mut self, layer_gate: Gate)
        ensures
            final(self).gates@ == old(self).gates@.push(layer_gate),
    {
        self.gates.push(layer_gate);
    }
}

} // verus!
