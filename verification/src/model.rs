//! The network as a mathematical object.
//!
//! Neurons are numbered in the order of their layers, the input layer first.
//! Every neuron receives one link from every neuron of every earlier layer, so
//! the links into neuron `d` are numbered by their source `s`, and
//! `incoming[d][s]` is the link from `s` to `d`.

use vstd::prelude::*;
use crate::error::NetworkError;
use crate::state::NeuronState;
use crate::weight::{
    exceeds_punish_share, NEURON_SENSITIVITY, WEIGHT_DECREASE_RATE, WEIGHT_INCREASE_RATE,
    WEIGHT_LIMIT,
};

verus! {

/// What a link holds.
pub struct LinkModel {
    /// The weight, in fixed-point units.
    pub weight: int,
    /// Whether the link is blamed in the backward sweep that is under way.
    pub punish_back: bool,
}

/// What a network holds.
#[verifier::ext_equal]
pub struct NetworkModel {
    /// The number of neurons of each layer.
    pub sizes: Seq<nat>,
    /// The state of each neuron.
    pub states: Seq<NeuronState>,
    /// For each neuron the links that end in it, by source.
    pub incoming: Seq<Seq<LinkModel>>,
}

/// The number of neurons in the first `k` layers.
pub open spec fn neurons_before(sizes: Seq<nat>, k: int) -> nat
    decreases k,
{
    if k <= 0 {
        0
    } else {
        neurons_before(sizes, k - 1) + sizes[k - 1]
    }
}

/// The sum of what the first `upto` sources send through their links.
pub open spec fn signal_sum(links: Seq<LinkModel>, states: Seq<NeuronState>, upto: int) -> int
    decreases upto,
{
    if upto <= 0 {
        0
    } else {
        signal_sum(links, states, upto - 1) + states[upto - 1].signal(links[upto - 1].weight)
    }
}

/// Layer sizes that describe a network: at least one layer, none of them empty.
pub open spec fn valid_dimensions(dimensions: Seq<usize>) -> bool {
    &&& dimensions.len() > 0
    &&& forall|k: int| 0 <= k < dimensions.len() ==> dimensions[k] > 0
}

/// Layer sizes as natural numbers.
pub open spec fn as_sizes(dimensions: Seq<usize>) -> Seq<nat> {
    Seq::new(dimensions.len(), |k: int| dimensions[k] as nat)
}

impl NetworkModel {
    /// The number of neurons.
    pub open spec fn neuron_count(self) -> nat {
        self.states.len()
    }

    /// The number of the first neuron of layer `k`.
    pub open spec fn layer_start(self, k: int) -> nat {
        neurons_before(self.sizes, k)
    }

    /// The number of neuron `j` of layer `k`.
    pub open spec fn neuron_at(self, k: int, j: int) -> int {
        self.layer_start(k) + j
    }

    /// The number of neurons of the input layer, which is the first.
    pub open spec fn input_size(self) -> nat {
        self.sizes[0]
    }

    /// The number of the first neuron of the output layer, which is the last.
    pub open spec fn output_start(self) -> nat {
        self.layer_start(self.sizes.len() - 1)
    }

    /// The number of neurons of the output layer.
    pub open spec fn output_size(self) -> nat {
        self.sizes[self.sizes.len() - 1]
    }

    /// The number of links that end in neuron `d`.
    pub open spec fn fan_in(self, d: int) -> nat {
        self.incoming[d].len()
    }

    /// Whether there is a link from neuron `s` to neuron `d`.
    pub open spec fn has_link(self, s: int, d: int) -> bool {
        0 <= d < self.incoming.len() && 0 <= s < self.incoming[d].len()
    }

    /// The shape of the graph: every neuron of a layer has exactly one
    /// incoming link for each neuron of the layers before it.
    pub open spec fn well_formed(self) -> bool {
        &&& self.sizes.len() > 0
        &&& forall|k: int| 0 <= k < self.sizes.len() ==> self.sizes[k] > 0
        &&& self.states.len() == neurons_before(self.sizes, self.sizes.len() as int)
        &&& self.incoming.len() == self.states.len()
        &&& forall|k: int, j: int|
            0 <= k < self.sizes.len() && 0 <= j < self.sizes[k] ==> self.fan_in(
                #[trigger] self.neuron_at(k, j),
            ) == self.layer_start(k)
    }

    /// Whether the layers have the given sizes.
    pub open spec fn has_shape(self, dimensions: Seq<usize>) -> bool {
        self.sizes == as_sizes(dimensions)
    }

    /// Every weight lies between `low` and `high`.
    pub open spec fn weights_between(self, low: int, high: int) -> bool {
        forall|s: int, d: int|
            self.has_link(s, d) ==> low <= (#[trigger] self.incoming[d][s]).weight <= high
    }

    /// No link is blamed.
    pub open spec fn flags_clear(self) -> bool {
        forall|s: int, d: int| self.has_link(s, d) ==> !(#[trigger] self.incoming[d][s]).punish_back
    }

    /// Every neuron is off.
    pub open spec fn all_off(self) -> bool {
        forall|n: int| 0 <= n < self.states.len() ==> self.states[n] == NeuronState::Off
    }

    /// The network with the weight of the link from `s` to `d` replaced.
    pub open spec fn with_weight(self, s: int, d: int, weight: int) -> NetworkModel {
        NetworkModel {
            incoming: self.incoming.update(
                d,
                self.incoming[d].update(s, LinkModel { weight, ..self.incoming[d][s] }),
            ),
            ..self
        }
    }

    /// The states of the output layer.
    pub open spec fn output(self) -> Seq<NeuronState> {
        self.states.subrange(self.output_start() as int, self.states.len() as int)
    }

    // ----- the forward pass -----

    /// What reaches neuron `d` over its incoming links.
    pub open spec fn activation(self, d: int) -> int {
        signal_sum(self.incoming[d], self.states, self.incoming[d].len() as int)
    }

    /// The state that its activation gives neuron `d`.
    pub open spec fn fires(self, d: int) -> NeuronState {
        if self.activation(d) >= NEURON_SENSITIVITY {
            NeuronState::On
        } else {
            NeuronState::Off
        }
    }

    /// The network after neuron `d` took the state that its activation gives it.
    pub open spec fn forward(self, d: int) -> NetworkModel {
        NetworkModel { states: self.states.update(d, self.fires(d)), ..self }
    }

    /// The network after the input layer was set to `input`.
    pub open spec fn with_input(self, input: Seq<NeuronState>) -> NetworkModel {
        NetworkModel {
            states: Seq::new(
                self.states.len(),
                |n: int|
                    if n < input.len() {
                        input[n]
                    } else {
                        self.states[n]
                    },
            ),
            ..self
        }
    }

    /// The network after every neuron behind the input layer and before
    /// neuron `upto` was activated, in the order of their numbers.
    pub open spec fn settled(self, upto: int) -> NetworkModel
        decreases upto,
    {
        if upto <= self.sizes[0] {
            self
        } else {
            self.settled(upto - 1).forward(upto - 1)
        }
    }

    /// The network after a forward pass on `input`.
    pub open spec fn calc(self, input: Seq<NeuronState>) -> NetworkModel {
        self.with_input(input).settled(self.states.len() as int)
    }

    /// The network after it was asked for a forward pass on `input`: an
    /// input that does not have the size of the input layer changes nothing.
    pub open spec fn after_calc(self, input: Seq<NeuronState>) -> NetworkModel {
        if input.len() == self.input_size() {
            self.calc(input)
        } else {
            self
        }
    }

    /// What a forward pass on `input` returns: the states of the output
    /// layer, or a refusal of an input that does not have the size of the
    /// input layer.
    pub open spec fn calc_output(self, input: Seq<NeuronState>) -> Result<
        Seq<NeuronState>,
        NetworkError,
    > {
        if input.len() == self.input_size() {
            Ok(self.calc(input).output())
        } else {
            Err(NetworkError::ShapeMismatch)
        }
    }

    // ----- the backward pass -----

    /// Whether neuron `n` belongs to the output layer, which has no outgoing links.
    pub open spec fn is_output(self, n: int) -> bool {
        n >= self.output_start()
    }

    /// The sum of the weights of the links from neuron `n` to the neurons before `upto`.
    pub open spec fn outgoing_weight(self, n: int, upto: int) -> int
        decreases upto,
    {
        if upto <= 0 {
            0
        } else {
            self.outgoing_weight(n, upto - 1) + if n < self.incoming[upto - 1].len() {
                self.incoming[upto - 1][n].weight
            } else {
                0
            }
        }
    }

    /// The same sum over the blamed links only.
    pub open spec fn blamed_weight(self, n: int, upto: int) -> int
        decreases upto,
    {
        if upto <= 0 {
            0
        } else {
            self.blamed_weight(n, upto - 1) + if n < self.incoming[upto - 1].len()
                && self.incoming[upto - 1][n].punish_back {
                self.incoming[upto - 1][n].weight
            } else {
                0
            }
        }
    }

    /// Whether neuron `n` passes blame on to its inputs: always in the output
    /// layer; elsewhere when it has inputs and the blamed share of its
    /// outgoing weight is above the limit.
    pub open spec fn should_punish_back(self, n: int) -> bool {
        ||| self.is_output(n)
        ||| self.fan_in(n) > 0 && exceeds_punish_share(
            self.blamed_weight(n, self.incoming.len() as int),
            self.outgoing_weight(n, self.incoming.len() as int),
        )
    }

    /// What becomes of the link from `s` when its target, in state `target`,
    /// passes blame on to it.
    pub open spec fn blamed_link(link: LinkModel, target: NeuronState, source: NeuronState)
        -> LinkModel {
        match (target, source) {
            (NeuronState::Off, NeuronState::Off) => LinkModel {
                punish_back: link.punish_back || link.weight > 0,
                ..link
            },
            (NeuronState::Off, NeuronState::On) => LinkModel {
                weight: link.weight + WEIGHT_INCREASE_RATE,
                ..link
            },
            (NeuronState::On, NeuronState::Off) => LinkModel {
                punish_back: link.punish_back || link.weight < 0,
                ..link
            },
            (NeuronState::On, NeuronState::On) => LinkModel {
                weight: link.weight - WEIGHT_DECREASE_RATE,
                punish_back: link.punish_back || link.weight - WEIGHT_DECREASE_RATE > 0,
            },
        }
    }

    /// The network after neuron `n` passed blame on to each of its incoming links.
    pub open spec fn blame_inputs(self, n: int) -> NetworkModel {
        NetworkModel {
            incoming: Seq::new(
                self.incoming.len(),
                |d: int|
                    Seq::new(
                        self.incoming[d].len(),
                        |s: int|
                            if d == n {
                                Self::blamed_link(
                                    self.incoming[d][s],
                                    self.states[n],
                                    self.states[s],
                                )
                            } else {
                                self.incoming[d][s]
                            },
                    ),
            ),
            ..self
        }
    }

    /// The network after each blamed outgoing link of neuron `n` was weakened.
    pub open spec fn weaken_blamed_outputs(self, n: int) -> NetworkModel {
        NetworkModel {
            incoming: Seq::new(
                self.incoming.len(),
                |d: int|
                    Seq::new(
                        self.incoming[d].len(),
                        |s: int|
                            if s == n && self.incoming[d][s].punish_back {
                                LinkModel {
                                    weight: self.incoming[d][s].weight - WEIGHT_DECREASE_RATE,
                                    ..self.incoming[d][s]
                                }
                            } else {
                                self.incoming[d][s]
                            },
                    ),
            ),
            ..self
        }
    }

    /// The network after the blame was taken off every outgoing link of neuron `n`.
    pub open spec fn clear_output_flags(self, n: int) -> NetworkModel {
        NetworkModel {
            incoming: Seq::new(
                self.incoming.len(),
                |d: int|
                    Seq::new(
                        self.incoming[d].len(),
                        |s: int|
                            if s == n {
                                LinkModel { punish_back: false, ..self.incoming[d][s] }
                            } else {
                                self.incoming[d][s]
                            },
                    ),
            ),
            ..self
        }
    }

    /// The network after the backward step of neuron `n`. A neuron that
    /// passes blame on adjusts its incoming links; one that does not, and is
    /// on, pays on its blamed outgoing links. Either way the blame then
    /// leaves its outgoing links.
    pub open spec fn back(self, n: int) -> NetworkModel {
        let adjusted = if self.should_punish_back(n) {
            self.blame_inputs(n)
        } else if self.states[n] == NeuronState::On {
            self.weaken_blamed_outputs(n)
        } else {
            self
        };
        adjusted.clear_output_flags(n)
    }

    /// The network after the backward step of each of the first `j` output
    /// neurons whose state differs from what was expected of it.
    pub open spec fn punish_outputs(self, expected: Seq<NeuronState>, j: int) -> NetworkModel
        decreases j,
    {
        if j <= 0 {
            self
        } else {
            let before = self.punish_outputs(expected, j - 1);
            let n = self.output_start() + j - 1;
            if before.states[n] != expected[j - 1] {
                before.back(n)
            } else {
                before
            }
        }
    }

    /// The network after the backward step of the first `j` neurons of layer `k`.
    pub open spec fn punish_layer(self, k: int, j: int) -> NetworkModel
        decreases j,
    {
        if j <= 0 {
            self
        } else {
            self.punish_layer(k, j - 1).back(self.layer_start(k) + j - 1)
        }
    }

    /// The network after the backward steps of the layers before the output
    /// layer, from the last of them down to layer `k`.
    pub open spec fn punish_hidden(self, k: int) -> NetworkModel
        decreases self.sizes.len() - k,
    {
        if k >= self.sizes.len() - 1 {
            self
        } else {
            self.punish_hidden(k + 1).punish_layer(k, self.sizes[k] as int)
        }
    }

    /// The network after a training step towards `expected`.
    pub open spec fn fit(self, expected: Seq<NeuronState>) -> NetworkModel {
        self.punish_outputs(expected, self.output_size() as int).punish_hidden(0)
    }

    /// The network after it was asked for a training step towards
    /// `expected`: an expectation that does not have the size of the output
    /// layer changes nothing.
    pub open spec fn after_fit(self, expected: Seq<NeuronState>) -> NetworkModel {
        if expected.len() == self.output_size() {
            self.fit(expected)
        } else {
            self
        }
    }

    /// What a training step towards `expected` returns: nothing, or a
    /// refusal of an expectation that does not have the size of the output
    /// layer.
    pub open spec fn fit_outcome(self, expected: Seq<NeuronState>) -> Result<(), NetworkError> {
        if expected.len() == self.output_size() {
            Ok(())
        } else {
            Err(NetworkError::ShapeMismatch)
        }
    }

    /// Every weight is far enough from the limit for the backward step of
    /// neuron `n`, which may strengthen an incoming link and weaken any link
    /// of `n`, by one rate.
    pub open spec fn room_to_punish(self, n: int) -> bool {
        forall|s: int, d: int|
            self.has_link(s, d) && (s == n || d == n) ==> {
                let link = #[trigger] self.incoming[d][s];
                &&& -WEIGHT_LIMIT + WEIGHT_DECREASE_RATE <= link.weight
                &&& d == n ==> link.weight <= WEIGHT_LIMIT - WEIGHT_INCREASE_RATE
            }
    }

    /// Every weight is far enough from the limit for a training step, which
    /// strengthens a link at most once and weakens it at most twice.
    pub open spec fn room_to_fit(self) -> bool {
        self.weights_between(
            -WEIGHT_LIMIT + 2 * WEIGHT_DECREASE_RATE,
            WEIGHT_LIMIT - WEIGHT_INCREASE_RATE,
        )
    }
}

/// More layers hold at least as many neurons.
pub proof fn lemma_neurons_before_grows(sizes: Seq<nat>, a: int, b: int)
    requires
        a <= b,
    ensures
        neurons_before(sizes, a) <= neurons_before(sizes, b),
    decreases b - a,
{
    if a < b {
        lemma_neurons_before_grows(sizes, a, b - 1);
    }
}

/// Finds the layer of a neuron and its place in that layer.
pub proof fn lemma_locate(sizes: Seq<nat>, count: int, n: int) -> (place: (int, int))
    requires
        0 <= n < neurons_before(sizes, count),
    ensures
        0 <= place.0 < count,
        0 <= place.1 < sizes[place.0],
        n == neurons_before(sizes, place.0) + place.1,
    decreases count,
{
    if n >= neurons_before(sizes, count - 1) {
        (count - 1, n - neurons_before(sizes, count - 1))
    } else {
        lemma_locate(sizes, count - 1, n)
    }
}

/// In a well-formed network the sources of a neuron's links come before it
/// and before the output layer, and an output neuron has a link from every
/// neuron before the output layer.
pub proof fn lemma_fan_in(m: NetworkModel)
    requires
        m.well_formed(),
    ensures
        m.output_start() + m.output_size() == m.neuron_count(),
        forall|d: int| 0 <= d < m.neuron_count() ==> #[trigger] m.fan_in(d) <= d,
        forall|d: int| 0 <= d < m.neuron_count() ==> #[trigger] m.fan_in(d) <= m.output_start(),
        forall|d: int|
            m.output_start() <= d < m.neuron_count() ==> #[trigger] m.fan_in(d)
                == m.output_start(),
        forall|d: int| 0 <= d < m.input_size() ==> #[trigger] m.fan_in(d) == 0,
        m.input_size() <= m.neuron_count(),
{
    let count = m.sizes.len() as int;
    assert forall|d: int| 0 <= d < m.neuron_count() implies #[trigger] m.fan_in(d) <= d && m.fan_in(
        d,
    ) <= m.output_start() && (d >= m.output_start() ==> m.fan_in(d) == m.output_start()) && (d
        < m.input_size() ==> m.fan_in(d) == 0) by {
        let (k, j) = lemma_locate(m.sizes, count, d);
        assert(d == m.neuron_at(k, j));
        lemma_neurons_before_grows(m.sizes, k, count - 1);
        if d >= m.output_start() && k < count - 1 {
            lemma_neurons_before_grows(m.sizes, k + 1, count - 1);
        }
        if d < m.input_size() && k > 0 {
            lemma_neurons_before_grows(m.sizes, 1, k);
            assert(neurons_before(m.sizes, 1) == neurons_before(m.sizes, 0) + m.sizes[0]);
        }
    }
    lemma_neurons_before_grows(m.sizes, 1, count);
    assert(neurons_before(m.sizes, 1) == neurons_before(m.sizes, 0) + m.sizes[0]);
}

/// A neuron has no outgoing weight among neurons that have no link from it.
pub proof fn lemma_no_outgoing_before(m: NetworkModel, n: int, upto: int)
    requires
        forall|d: int| 0 <= d < upto ==> #[trigger] m.fan_in(d) <= n,
    ensures
        m.outgoing_weight(n, upto) == 0,
        m.blamed_weight(n, upto) == 0,
    decreases upto,
{
    if upto > 0 {
        lemma_no_outgoing_before(m, n, upto - 1);
        assert(m.fan_in(upto - 1) <= n);
    }
}

/// A network with the layers and the link counts of a well-formed one is
/// well-formed.
pub proof fn lemma_same_shape(a: NetworkModel, b: NetworkModel)
    requires
        a.well_formed(),
        b.sizes == a.sizes,
        b.states.len() == a.states.len(),
        b.incoming.len() == a.incoming.len(),
        forall|d: int|
            0 <= d < a.incoming.len() ==> #[trigger] b.incoming[d].len() == a.incoming[d].len(),
    ensures
        b.well_formed(),
{
    assert forall|k: int, j: int|
        0 <= k < b.sizes.len() && 0 <= j < b.sizes[k] implies b.fan_in(#[trigger] b.neuron_at(k, j))
        == b.layer_start(k) by {
        assert(a.fan_in(a.neuron_at(k, j)) == a.layer_start(k));
        lemma_neurons_before_grows(a.sizes, k + 1, a.sizes.len() as int);
    }
}

} // verus!
