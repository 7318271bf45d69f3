//! What holds of the two passes whatever the network: the forward pass is a
//! function of weights and input, a second pass on the same input changes
//! nothing, its result is the one assignment of states in which every
//! neuron agrees with its activation, a training step leaves no link
//! blamed, and a punished link between two active neurons loses exactly one
//! rate.

use vstd::prelude::*;
use crate::model::{lemma_fan_in, lemma_same_shape, signal_sum, LinkModel, NetworkModel};
use crate::state::NeuronState;
use crate::sweep::lemma_fit_swept;
use crate::weight::{WEIGHT_DECREASE_RATE, WEIGHT_INCREASE_RATE};

verus! {

/// Two networks have the same layers and, link by link, the same weights.
pub open spec fn same_weights(a: NetworkModel, b: NetworkModel) -> bool {
    &&& a.sizes == b.sizes
    &&& a.incoming.len() == b.incoming.len()
    &&& forall|d: int|
        0 <= d < a.incoming.len() ==> (#[trigger] a.incoming[d]).len() == b.incoming[d].len()
    &&& forall|s: int, d: int|
        a.has_link(s, d) ==> (#[trigger] a.incoming[d][s]).weight == b.incoming[d][s].weight
}

/// A sum of signals depends on the weights and the states that it adds up.
pub proof fn lemma_signal_sum_agrees(
    links_a: Seq<LinkModel>,
    states_a: Seq<NeuronState>,
    links_b: Seq<LinkModel>,
    states_b: Seq<NeuronState>,
    upto: int,
)
    requires
        forall|i: int| 0 <= i < upto ==> (#[trigger] links_a[i]).weight == links_b[i].weight,
        forall|i: int| 0 <= i < upto ==> #[trigger] states_a[i] == states_b[i],
    ensures
        signal_sum(links_a, states_a, upto) == signal_sum(links_b, states_b, upto),
    decreases upto,
{
    if upto > 0 {
        lemma_signal_sum_agrees(links_a, states_a, links_b, states_b, upto - 1);
        assert(links_a[upto - 1].weight == links_b[upto - 1].weight);
        assert(states_a[upto - 1] == states_b[upto - 1]);
    }
}

/// Activating neurons changes states only: layers, links and the number of
/// neurons stay, and so do the states of the neurons from `upto` on and of
/// the input layer.
pub proof fn lemma_settled_keeps(m: NetworkModel, upto: int)
    requires
        upto <= m.states.len(),
    ensures
        m.settled(upto).sizes == m.sizes,
        m.settled(upto).incoming == m.incoming,
        m.settled(upto).states.len() == m.states.len(),
        forall|n: int|
            0 <= n < m.states.len() && (n >= upto || n < m.sizes[0]) ==> #[trigger] m.settled(
                upto,
            ).states[n] == m.states[n],
    decreases upto,
{
    if upto > m.sizes[0] {
        lemma_settled_keeps(m, upto - 1);
    }
}

/// With the same weights and the same states in the input layer, the
/// neurons before `upto` end in the same states.
pub proof fn lemma_settled_agrees(a: NetworkModel, b: NetworkModel, upto: int)
    requires
        a.well_formed(),
        b.well_formed(),
        same_weights(a, b),
        forall|n: int| 0 <= n < a.sizes[0] ==> #[trigger] a.states[n] == b.states[n],
        a.sizes[0] <= upto <= a.states.len(),
    ensures
        forall|n: int| 0 <= n < upto ==> #[trigger] a.settled(upto).states[n] == b.settled(
            upto,
        ).states[n],
    decreases upto,
{
    lemma_fan_in(a);
    lemma_settled_keeps(a, upto);
    lemma_settled_keeps(b, upto);
    if upto > a.sizes[0] {
        let d = upto - 1;
        lemma_settled_agrees(a, b, d);
        lemma_settled_keeps(a, d);
        lemma_settled_keeps(b, d);
        let sa = a.settled(d);
        let sb = b.settled(d);
        assert(a.fan_in(d) <= d);
        assert(sa.incoming[d].len() == sb.incoming[d].len());
        assert forall|i: int| 0 <= i < sa.incoming[d].len() implies (
        #[trigger] sa.incoming[d][i]).weight == sb.incoming[d][i].weight by {
            assert(a.has_link(i, d));
        }
        lemma_signal_sum_agrees(
            sa.incoming[d],
            sa.states,
            sb.incoming[d],
            sb.states,
            sa.incoming[d].len() as int,
        );
        assert(sa.fires(d) == sb.fires(d));
    }
}

/// The forward pass is deterministic: networks with the same layers and
/// weights give the same answer to the same input, whatever states and
/// blame they begin with; and if the input is not refused, they end the
/// pass in the same states.
pub proof fn lemma_calc_deterministic(a: NetworkModel, b: NetworkModel, input: Seq<NeuronState>)
    requires
        a.well_formed(),
        b.well_formed(),
        same_weights(a, b),
    ensures
        a.calc_output(input) == b.calc_output(input),
        input.len() == a.input_size() ==> a.calc(input).states == b.calc(input).states,
{
    if input.len() == a.input_size() {
        lemma_fan_in(a);
        lemma_fan_in(b);
        let fa = a.with_input(input);
        let fb = b.with_input(input);
        let count = a.states.len() as int;
        lemma_same_shape(a, fa);
        lemma_same_shape(b, fb);
        lemma_settled_agrees(fa, fb, count);
        lemma_settled_keeps(fa, count);
        lemma_settled_keeps(fb, count);
        assert(a.calc(input).states =~= b.calc(input).states);
    }
}

/// The forward pass keeps layers and links and leaves a well-formed network.
pub proof fn lemma_calc_keeps_links(m: NetworkModel, input: Seq<NeuronState>)
    requires
        m.well_formed(),
    ensures
        m.calc(input).well_formed(),
        m.calc(input).sizes == m.sizes,
        m.calc(input).incoming == m.incoming,
        m.calc(input).states.len() == m.states.len(),
{
    let fed = m.with_input(input);
    lemma_settled_keeps(fed, m.states.len() as int);
    lemma_same_shape(m, m.calc(input));
}

/// The forward pass is idempotent: a second pass on the same input, with no
/// training step between the two, gives the answer of the first and leaves
/// the network as the first left it.
pub proof fn lemma_calc_idempotent(m: NetworkModel, input: Seq<NeuronState>)
    requires
        m.well_formed(),
    ensures
        m.after_calc(input).calc_output(input) == m.calc_output(input),
        m.after_calc(input).after_calc(input) == m.after_calc(input),
{
    if input.len() == m.input_size() {
        let once = m.calc(input);
        lemma_calc_keeps_links(m, input);
        lemma_calc_keeps_links(once, input);
        lemma_calc_deterministic(once, m, input);
        assert(once.calc(input) =~= once);
    }
}

/// After the forward pass the input layer holds the input, and every other
/// neuron is on exactly if what reaches it from the neurons before it is at
/// least the sensitivity.
pub proof fn lemma_calc_settles(m: NetworkModel, input: Seq<NeuronState>)
    requires
        m.well_formed(),
        input.len() == m.input_size(),
    ensures
        forall|n: int| 0 <= n < m.input_size() ==> #[trigger] m.calc(input).states[n] == input[n],
        forall|n: int|
            m.input_size() <= n < m.neuron_count() ==> #[trigger] m.calc(input).states[n]
                == m.calc(input).fires(n),
{
    let fed = m.with_input(input);
    lemma_fan_in(m);
    lemma_same_shape(m, fed);
    lemma_settled_keeps(fed, m.states.len() as int);
    lemma_settled_fires(fed, m.states.len() as int);
}

/// Among the neurons before `upto`, each one behind the input layer agrees
/// with its activation.
pub proof fn lemma_settled_fires(m: NetworkModel, upto: int)
    requires
        m.well_formed(),
        m.sizes[0] <= upto <= m.states.len(),
    ensures
        forall|n: int|
            m.sizes[0] <= n < upto ==> #[trigger] m.settled(upto).states[n] == m.settled(
                upto,
            ).fires(n),
    decreases upto,
{
    lemma_fan_in(m);
    lemma_settled_keeps(m, upto);
    if upto > m.sizes[0] {
        let d = upto - 1;
        lemma_settled_fires(m, d);
        lemma_settled_keeps(m, d);
        let before = m.settled(d);
        let after = m.settled(upto);
        assert(after == before.forward(d));
        assert forall|n: int| m.sizes[0] <= n < upto implies #[trigger] after.states[n]
            == after.fires(n) by {
            assert(m.fan_in(n) <= n);
            assert(after.incoming[n] == before.incoming[n]);
            lemma_signal_sum_agrees(
                after.incoming[n],
                after.states,
                before.incoming[n],
                before.states,
                after.incoming[n].len() as int,
            );
            assert(after.fires(n) == before.fires(n));
        }
    }
}

/// The result of the forward pass is the only assignment of states that
/// holds the input in the input layer and in which every other neuron agrees
/// with its activation.
pub proof fn lemma_calc_unique(m: NetworkModel, input: Seq<NeuronState>, other: NetworkModel)
    requires
        m.well_formed(),
        input.len() == m.input_size(),
        other.sizes == m.sizes,
        other.incoming == m.incoming,
        other.states.len() == m.states.len(),
        forall|n: int| 0 <= n < m.input_size() ==> #[trigger] other.states[n] == input[n],
        forall|n: int|
            m.input_size() <= n < m.neuron_count() ==> #[trigger] other.states[n] == other.fires(
                n,
            ),
    ensures
        other.states == m.calc(input).states,
{
    let result = m.calc(input);
    lemma_calc_settles(m, input);
    lemma_calc_keeps_links(m, input);
    lemma_agree_before(result, other, m.input_size() as int, m.neuron_count() as int);
    assert(other.states =~= result.states);
}

/// Two assignments of states to the same well-formed graph that agree in
/// the first `inputs` neurons, and in which every later neuron agrees with
/// its activation, agree before `upto`.
pub proof fn lemma_agree_before(a: NetworkModel, b: NetworkModel, inputs: int, upto: int)
    requires
        a.well_formed(),
        b.sizes == a.sizes,
        b.incoming == a.incoming,
        b.states.len() == a.states.len(),
        0 <= inputs,
        upto <= a.states.len(),
        forall|n: int| 0 <= n < inputs ==> #[trigger] a.states[n] == b.states[n],
        forall|n: int| inputs <= n < a.states.len() ==> #[trigger] a.states[n] == a.fires(n),
        forall|n: int| inputs <= n < a.states.len() ==> #[trigger] b.states[n] == b.fires(n),
    ensures
        forall|n: int| 0 <= n < upto ==> #[trigger] a.states[n] == b.states[n],
    decreases upto,
{
    if upto > inputs {
        let d = upto - 1;
        lemma_agree_before(a, b, inputs, d);
        lemma_fan_in(a);
        assert(a.fan_in(d) <= d);
        lemma_signal_sum_agrees(
            a.incoming[d],
            a.states,
            b.incoming[d],
            b.states,
            a.incoming[d].len() as int,
        );
        assert(a.fires(d) == b.fires(d));
        assert(a.states[d] == a.fires(d));
        assert(b.states[d] == b.fires(d));
    }
}

/// After a training step no link is blamed, whatever was expected and
/// whatever blame there was before. The step changes no state and no
/// wiring, and it moves no weight up by more than one rate or down by more
/// than two.
pub proof fn lemma_fit_clears_blame(m: NetworkModel, expected: Seq<NeuronState>)
    requires
        m.well_formed(),
    ensures
        m.fit(expected).flags_clear(),
        m.fit(expected).well_formed(),
        m.fit(expected).sizes == m.sizes,
        m.fit(expected).states == m.states,
        forall|s: int, d: int| m.has_link(s, d) == m.fit(expected).has_link(s, d),
        forall|s: int, d: int|
            m.has_link(s, d) ==> m.incoming[d][s].weight - 2 * WEIGHT_DECREASE_RATE <= (
            #[trigger] m.fit(expected).incoming[d][s]).weight <= m.incoming[d][s].weight
                + WEIGHT_INCREASE_RATE,
{
    lemma_fit_swept(m, expected);
    lemma_same_shape(m, m.fit(expected));
    let after = m.fit(expected);
    assert forall|s: int, d: int| after.has_link(s, d) implies !(
    #[trigger] after.incoming[d][s]).punish_back by {
        assert(m.has_link(s, d));
    }
}

/// When a neuron that is on passes blame on to its inputs, its link from a
/// neuron that is on loses exactly one rate of its weight.
pub proof fn lemma_back_weakens_active_link(m: NetworkModel, n: int, s: int)
    requires
        m.well_formed(),
        m.has_link(s, n),
        m.states[n] == NeuronState::On,
        m.states[s] == NeuronState::On,
        m.should_punish_back(n),
    ensures
        m.back(n).incoming[n][s].weight == m.incoming[n][s].weight - WEIGHT_DECREASE_RATE,
{
    lemma_fan_in(m);
    assert(m.fan_in(n) <= n);
    assert(m.blame_inputs(n).has_link(s, n));
}

} // verus!
