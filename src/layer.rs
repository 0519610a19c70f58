//! A stack of gate lists, one list per layer.
use crate::circuits::gate::Gate;
use vstd::prelude::*;

verus! {

pub struct Layer {
    pub layers: Vec<Vec<Gate>>,
}

impl Layer {
    /// A stack holding `layer_one` alone.
    pub fn new(layer_one: Vec<Gate>) -> (r: Self)
        ensures
            r.layers@.len() == 1,
            r.layers@[0]@ == layer_one@,
    {
        let mut layers: Vec<Vec<Gate>> = Vec::new();
        layers.push(layer_one);
        Layer { layers }
    }

    /// Adds a list of gates on top of the stack.
    pub fn update_layer(&mut self, layer_gates: Vec<Gate>)
        ensures
            final(self).layers@ == old(self).layers@.push(layer_gates),
    {
        self.layers.push(layer_gates);
    }
}

} // verus!
