//! Bookkeeping for the backward sweep: what the backward step of one neuron
//! does to each link, and what therefore holds of every link while the sweep
//! moves from the output layer down to the input layer.

use vstd::prelude::*;
use crate::model::{lemma_fan_in, lemma_neurons_before_grows, neurons_before, NetworkModel};
use crate::state::NeuronState;
use crate::weight::{WEIGHT_DECREASE_RATE, WEIGHT_INCREASE_RATE, WEIGHT_LIMIT};

verus! {

/// The backward step of neuron `n` keeps states and wiring. It leaves every
/// link alone that does not touch `n`, moves an incoming link of `n` by at
/// most one rate, weakens an outgoing link of `n` by at most one rate, and
/// leaves no outgoing link of `n` blamed.
pub proof fn lemma_back_effect(m: NetworkModel, n: int)
    ensures
        m.back(n).sizes == m.sizes,
        m.back(n).states == m.states,
        m.back(n).incoming.len() == m.incoming.len(),
        forall|d: int|
            0 <= d < m.incoming.len() ==> (#[trigger] m.back(n).incoming[d]).len()
                == m.incoming[d].len(),
        forall|s: int, d: int|
            m.has_link(s, d) ==> {
                let a = m.incoming[d][s];
                let b = #[trigger] m.back(n).incoming[d][s];
                &&& d != n && s != n ==> b == a
                &&& a.weight - WEIGHT_DECREASE_RATE <= b.weight <= a.weight + WEIGHT_INCREASE_RATE
                &&& d != n ==> b.weight <= a.weight
                &&& s == n ==> !b.punish_back
            },
{
    let adjusted = if m.should_punish_back(n) {
        m.blame_inputs(n)
    } else if m.states[n] == NeuronState::On {
        m.weaken_blamed_outputs(n)
    } else {
        m
    };
    assert forall|s: int, d: int| m.has_link(s, d) implies {
        let a = m.incoming[d][s];
        let b = #[trigger] m.back(n).incoming[d][s];
        &&& d != n && s != n ==> b == a
        &&& a.weight - WEIGHT_DECREASE_RATE <= b.weight <= a.weight + WEIGHT_INCREASE_RATE
        &&& d != n ==> b.weight <= a.weight
        &&& s == n ==> !b.punish_back
    } by {
        assert(adjusted.has_link(s, d));
    }
}

/// Whether the sweep has reached neuron `x`: the neurons from `from` on and
/// those from `low` up to `high` have had their turn.
pub open spec fn swept(x: int, from: int, low: int, high: int) -> bool {
    x >= from || low <= x < high
}

/// What holds of `now`, a network in the middle of a sweep that began at
/// `start`: states and wiring are those of `start`; a link has been
/// strengthened at most once, and only if the sweep has reached its target;
/// it has been weakened at most once for each of its two neurons that the
/// sweep has reached; and it is not blamed if the sweep has reached its
/// source.
pub open spec fn sweep_inv(
    start: NetworkModel,
    now: NetworkModel,
    from: int,
    low: int,
    high: int,
) -> bool {
    &&& now.sizes == start.sizes
    &&& now.states == start.states
    &&& now.incoming.len() == start.incoming.len()
    &&& forall|d: int|
        0 <= d < start.incoming.len() ==> (#[trigger] now.incoming[d]).len()
            == start.incoming[d].len()
    &&& forall|s: int, d: int|
        start.has_link(s, d) ==> {
            let a = start.incoming[d][s];
            let b = #[trigger] now.incoming[d][s];
            &&& b.weight >= a.weight - (if swept(d, from, low, high) {
                WEIGHT_DECREASE_RATE as int
            } else {
                0
            }) - (if swept(s, from, low, high) {
                WEIGHT_DECREASE_RATE as int
            } else {
                0
            })
            &&& b.weight <= a.weight + (if swept(d, from, low, high) {
                WEIGHT_INCREASE_RATE as int
            } else {
                0
            })
            &&& swept(s, from, low, high) ==> !b.punish_back
        }
}

/// Before the sweep has reached any neuron, nothing is claimed of the blame.
pub proof fn lemma_sweep_begin(start: NetworkModel, low: int)
    requires
        start.well_formed(),
    ensures
        sweep_inv(start, start, start.neuron_count() as int, low, low),
{
    lemma_fan_in(start);
    assert forall|s: int, d: int| start.has_link(s, d) implies !swept(
        s,
        start.neuron_count() as int,
        low,
        low,
    ) && !swept(d, start.neuron_count() as int, low, low) by {
        assert(start.fan_in(d) <= d);
    }
}

/// The sweep goes on with the backward step of neuron `n`.
pub proof fn lemma_sweep_step(
    start: NetworkModel,
    now: NetworkModel,
    n: int,
    from: int,
    low: int,
)
    requires
        sweep_inv(start, now, from, low, n),
        0 <= low <= n < from,
        n < start.incoming.len(),
        start.fan_in(n) <= low,
    ensures
        sweep_inv(start, now.back(n), from, low, n + 1),
{
    lemma_back_effect(now, n);
    let next = now.back(n);
    assert forall|s: int, d: int| start.has_link(s, d) implies {
        let a = start.incoming[d][s];
        let b = #[trigger] next.incoming[d][s];
        &&& b.weight >= a.weight - (if swept(d, from, low, n + 1) {
            WEIGHT_DECREASE_RATE as int
        } else {
            0
        }) - (if swept(s, from, low, n + 1) {
            WEIGHT_DECREASE_RATE as int
        } else {
            0
        })
        &&& b.weight <= a.weight + (if swept(d, from, low, n + 1) {
            WEIGHT_INCREASE_RATE as int
        } else {
            0
        })
        &&& swept(s, from, low, n + 1) ==> !b.punish_back
    } by {
        assert(now.has_link(s, d));
    }
}

/// The sweep passes over neuron `n`, which has no outgoing links.
pub proof fn lemma_sweep_skip(
    start: NetworkModel,
    now: NetworkModel,
    n: int,
    from: int,
    low: int,
)
    requires
        sweep_inv(start, now, from, low, n),
        forall|d: int| 0 <= d < start.incoming.len() ==> #[trigger] start.fan_in(d) <= n,
    ensures
        sweep_inv(start, now, from, low, n + 1),
{
    assert forall|s: int, d: int| start.has_link(s, d) implies {
        let a = start.incoming[d][s];
        let b = #[trigger] now.incoming[d][s];
        &&& b.weight >= a.weight - (if swept(d, from, low, n + 1) {
            WEIGHT_DECREASE_RATE as int
        } else {
            0
        }) - (if swept(s, from, low, n + 1) {
            WEIGHT_DECREASE_RATE as int
        } else {
            0
        })
        &&& b.weight <= a.weight + (if swept(d, from, low, n + 1) {
            WEIGHT_INCREASE_RATE as int
        } else {
            0
        })
        &&& swept(s, from, low, n + 1) ==> !b.punish_back
    } by {
        assert(start.fan_in(d) <= n);
    }
}

/// In a sweep that began with room for a training step, the links of a
/// neuron that the sweep has not reached, and whose sources it has not
/// reached either, have room for its backward step.
pub proof fn lemma_sweep_room(
    start: NetworkModel,
    now: NetworkModel,
    n: int,
    from: int,
    low: int,
)
    requires
        start.room_to_fit(),
        sweep_inv(start, now, from, low, n),
        0 <= low <= n < from,
        n < start.incoming.len(),
        start.fan_in(n) <= low,
    ensures
        now.room_to_punish(n),
{
    assert forall|s: int, d: int| now.has_link(s, d) && (s == n || d == n) implies {
        let b = #[trigger] now.incoming[d][s];
        &&& -WEIGHT_LIMIT + WEIGHT_DECREASE_RATE <= b.weight
        &&& d == n ==> b.weight <= WEIGHT_LIMIT - WEIGHT_INCREASE_RATE
    } by {
        assert(start.has_link(s, d));
    }
}

/// An output neuron has no outgoing links.
pub proof fn lemma_output_is_leaf(m: NetworkModel, n: int)
    requires
        m.well_formed(),
        m.is_output(n),
    ensures
        forall|d: int| 0 <= d < m.incoming.len() ==> #[trigger] m.fan_in(d) <= n,
{
    lemma_fan_in(m);
}

/// The sweep over the first `j` output neurons.
pub proof fn lemma_outputs_swept(start: NetworkModel, expected: Seq<NeuronState>, j: int)
    requires
        start.well_formed(),
        0 <= j <= start.output_size(),
    ensures
        sweep_inv(
            start,
            start.punish_outputs(expected, j),
            start.neuron_count() as int,
            start.output_start() as int,
            start.output_start() + j,
        ),
    decreases j,
{
    let count = start.neuron_count() as int;
    let outputs = start.output_start() as int;
    lemma_fan_in(start);
    if j <= 0 {
        lemma_sweep_begin(start, outputs);
    } else {
        lemma_outputs_swept(start, expected, j - 1);
        let before = start.punish_outputs(expected, j - 1);
        let n = outputs + j - 1;
        assert(start.fan_in(n) == outputs);
        if before.states[n] != expected[j - 1] {
            lemma_sweep_step(start, before, n, count, outputs);
        } else {
            lemma_output_is_leaf(start, n);
            lemma_sweep_skip(start, before, n, count, outputs);
        }
    }
}

/// The sweep over the first `j` neurons of layer `k`, once it is through
/// with the layers behind `k`.
pub proof fn lemma_layer_swept(start: NetworkModel, begin: NetworkModel, k: int, j: int)
    requires
        start.well_formed(),
        0 <= k < start.sizes.len() - 1,
        0 <= j <= start.sizes[k],
        sweep_inv(
            start,
            begin,
            neurons_before(start.sizes, k + 1) as int,
            neurons_before(start.sizes, k) as int,
            neurons_before(start.sizes, k) as int,
        ),
    ensures
        sweep_inv(
            start,
            begin.punish_layer(k, j),
            neurons_before(start.sizes, k + 1) as int,
            neurons_before(start.sizes, k) as int,
            neurons_before(start.sizes, k) + j,
        ),
    decreases j,
{
    if j > 0 {
        lemma_layer_swept(start, begin, k, j - 1);
        let low = neurons_before(start.sizes, k) as int;
        let n = low + j - 1;
        assert(start.fan_in(start.neuron_at(k, j - 1)) == low);
        lemma_neurons_before_grows(start.sizes, k + 1, start.sizes.len() as int);
        lemma_sweep_step(start, begin.punish_layer(k, j - 1), n, low + start.sizes[k], low);
    }
}

/// The sweep over the layers before the output layer, from the last of
/// them down to layer `k`, once it is through with the output layer.
pub proof fn lemma_hidden_swept(start: NetworkModel, mid: NetworkModel, k: int)
    requires
        start.well_formed(),
        0 <= k <= start.sizes.len() - 1,
        sweep_inv(
            start,
            mid,
            start.output_start() as int,
            start.output_start() as int,
            start.output_start() as int,
        ),
    ensures
        sweep_inv(
            start,
            mid.punish_hidden(k),
            neurons_before(start.sizes, k) as int,
            neurons_before(start.sizes, k) as int,
            neurons_before(start.sizes, k) as int,
        ),
    decreases start.sizes.len() - k,
{
    if k < start.sizes.len() - 1 {
        lemma_hidden_swept(start, mid, k + 1);
        let begin = mid.punish_hidden(k + 1);
        let low = neurons_before(start.sizes, k) as int;
        let from = neurons_before(start.sizes, k + 1) as int;
        assert(sweep_inv(start, begin, from, low, low));
        lemma_layer_swept(start, begin, k, start.sizes[k] as int);
        let done = begin.punish_layer(k, start.sizes[k] as int);
        assert(sweep_inv(start, done, from, low, from));
        assert(sweep_inv(start, done, low, low, low));
    }
}

/// A whole training step: once the sweep is through, no link is blamed, the
/// states and the wiring are what they were, and every weight has risen by
/// one rate at most and fallen by two at most.
pub proof fn lemma_fit_swept(start: NetworkModel, expected: Seq<NeuronState>)
    requires
        start.well_formed(),
    ensures
        sweep_inv(start, start.fit(expected), 0, 0, 0),
{
    let count = start.neuron_count() as int;
    let outputs = start.output_start() as int;
    lemma_fan_in(start);
    lemma_outputs_swept(start, expected, start.output_size() as int);
    let mid = start.punish_outputs(expected, start.output_size() as int);
    assert(sweep_inv(start, mid, count, outputs, count));
    assert(sweep_inv(start, mid, outputs, outputs, outputs));
    lemma_hidden_swept(start, mid, 0);
}

} // verus!
