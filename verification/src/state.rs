use vstd::prelude::*;

verus! {

/// Binary activation of a neuron.
#[derive(Debug, Clone, Copy, PartialEq, Eq, Structural)]
pub enum NeuronState {
    On,
    Off,
}

impl NeuronState {
    /// What a neuron in this state sends through a link of the given weight:
    /// the weight itself when on, nothing when off.
    pub open spec fn signal(self, weight: int) -> int {
        match self {
            NeuronState::On => weight,
            NeuronState::Off => 0,
        }
    }

    /// Multiplies the state, read as 1 or 0, with a weight.
    pub fn mul(self, rhs: i64) -> (out: i64)
        ensures
            out == self.signal(rhs as int),
    {
        match self {
            NeuronState::On => rhs,
            NeuronState::Off => 0,
        }
    }
}

/// The state that a bit stands for.
pub open spec fn bit_state(bit: u8) -> NeuronState {
    if bit == 1 {
        NeuronState::On
    } else {
        NeuronState::Off
    }
}

/// Reads a pattern of bits as neuron states: 1 is on, 0 is off.
pub fn data(bits: &[u8]) -> (states: Vec<NeuronState>)
    requires
        forall|i: int| 0 <= i < bits@.len() ==> bits@[i] == 0 || bits@[i] == 1,
    ensures
        states@.len() == bits@.len(),
        forall|i: int| 0 <= i < bits@.len() ==> states@[i] == bit_state(#[trigger] bits@[i]),
{
    let mut states: Vec<NeuronState> = Vec::with_capacity(bits.len());
    let mut i: usize = 0;
    while i < bits.len()
        invariant
            i <= bits@.len(),
            states@.len() == i,
            forall|j: int| 0 <= j < i ==> states@[j] == bit_state(#[trigger] bits@[j]),
        decreases bits@.len() - i,
    {
        let state = if bits[i] == 1 {
            NeuronState::On
        } else {
            NeuronState::Off
        };
        states.push(state);
        i += 1;
    }
    states
}

} // verus!
