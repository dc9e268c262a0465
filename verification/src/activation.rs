//! Which activation each layer of a multilayer perceptron uses.
use vstd::prelude::*;

verus! {

/// What a neuron puts its weighted sum through.
///
/// `Tanh` is smooth and bounded, so a gradient arrives everywhere, but it
/// saturates far from zero. `Relu` has derivative exactly 1 above zero and
/// exactly 0 below, so a neuron pushed negative for every input is dead for
/// good. `Linear` passes the sum through unchanged.
#[derive(Debug, Clone, Copy, PartialEq, Eq, Structural)]
pub enum Activation {
    Tanh,
    Relu,
    Linear,
}

/// The activation of each of `num_layers` layers: `hidden` for every layer
/// but the last, which stays linear so that squashing does not cap the
/// range the loss can pull the prediction into.
pub fn layer_activations(num_layers: usize, hidden: Activation) -> (acts: Vec<Activation>)
    requires
        num_layers >= 1,
    ensures
        acts.len() == num_layers,
        acts[num_layers - 1] == Activation::Linear,
        forall|i: int| 0 <= i < num_layers - 1 ==> #[trigger] acts[i] == hidden,
{
    let last = num_layers - 1;
    let mut acts: Vec<Activation> = Vec::new();
    let mut i: usize = 0;
    while i < num_layers
        invariant
            i <= num_layers,
            last == num_layers - 1,
            acts.len() == i,
            forall|j: int| 0 <= j < i ==> #[trigger] acts[j] == (if j == last {
                Activation::Linear
            } else {
                hidden
            }),
        decreases num_layers - i,
    {
        let a = if i == last {
            Activation::Linear
        } else {
            hidden
        };
        acts.push(a);
        i = i + 1;
    }
    acts
}

} // verus!
