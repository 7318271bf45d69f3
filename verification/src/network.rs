//! The network in memory: an arena of neurons and an arena of links. A link
//! names its two neurons by number, and a neuron lists the numbers of the
//! links that end in it and of the links that leave it.

use vstd::prelude::*;
use crate::error::NetworkError;
use crate::model::{
    as_sizes, lemma_fan_in, lemma_neurons_before_grows, lemma_no_outgoing_before,
    lemma_same_shape, neurons_before, signal_sum, valid_dimensions, LinkModel, NetworkModel,
};
use crate::rng::{draw_between, thread_generator};
use crate::state::NeuronState;
use crate::sweep::{
    lemma_output_is_leaf, lemma_sweep_begin, lemma_sweep_room, lemma_sweep_skip,
    lemma_sweep_step, sweep_inv,
};
use crate::weight::{
    exceeds_share, sum_limit, NEURON_SENSITIVITY, WEIGHT_DECREASE_RATE, WEIGHT_INCREASE_RATE,
    WEIGHT_LIMIT, WEIGHT_ONE,
};
use crate::wiring::{lemma_wired_grows, wired};
use rand::rngs::ThreadRng;

verus! {

/// A weighted, directed edge between two neurons.
#[derive(Debug, Clone, Copy)]
pub struct Link {
    pub weight: i64,
    pub punish_back: bool,
    /// The number of the neuron that the link leaves.
    pub source: usize,
    /// The number of the neuron that the link ends in.
    pub dest: usize,
}

impl Link {
    /// A link that is not blamed.
    pub fn new(weight: i64, source: usize, dest: usize) -> (link: Link)
        ensures
            link == (Link { weight, punish_back: false, source, dest }),
    {
        Link { weight, punish_back: false, source, dest }
    }

    /// What the link holds, without its two ends.
    pub open spec fn model(self) -> LinkModel {
        LinkModel { weight: self.weight as int, punish_back: self.punish_back }
    }
}

/// A node of the graph.
#[derive(Debug)]
pub struct Neuron {
    pub state: NeuronState,
    /// The numbers of the incoming links, by source.
    pub back: Vec<usize>,
    /// The numbers of the outgoing links, by target.
    pub forward: Vec<usize>,
}

impl Default for Neuron {
    /// A neuron that is off and has no links yet.
    fn default() -> (neuron: Neuron)
        ensures
            neuron.state == NeuronState::Off,
            neuron.back@.len() == 0,
            neuron.forward@.len() == 0,
    {
        Neuron { state: NeuronState::Off, back: Vec::new(), forward: Vec::new() }
    }
}

/// Layers of neurons in which every neuron is linked from every neuron of
/// every earlier layer.
#[derive(Debug)]
pub struct Network {
    layers: Vec<Vec<usize>>,
    neurons: Vec<Neuron>,
    links: Vec<Link>,
}

/// The incoming link lists of all neurons.
spec fn backs(neurons: Seq<Neuron>) -> Seq<Seq<usize>> {
    Seq::new(neurons.len(), |d: int| neurons[d].back@)
}

/// The outgoing link lists of all neurons.
spec fn fronts(neurons: Seq<Neuron>) -> Seq<Seq<usize>> {
    Seq::new(neurons.len(), |n: int| neurons[n].forward@)
}

/// The two neurons of each link.
spec fn ends(links: Seq<Link>) -> Seq<(usize, usize)> {
    Seq::new(links.len(), |id: int| (links[id].source, links[id].dest))
}

/// The sizes of the layers.
spec fn sizes_of(layers: Seq<Vec<usize>>) -> Seq<nat> {
    Seq::new(layers.len(), |k: int| layers[k]@.len())
}

/// What `model` holds for the link with the ends of `link`.
spec fn at_link(model: NetworkModel, link: Link) -> LinkModel {
    model.incoming[link.dest as int][link.source as int]
}

/// The number of neuron `b` of layer `a`.
spec fn place(sizes: Seq<nat>, a: int, b: int) -> int {
    neurons_before(sizes, a) + b
}

/// What holds of the arenas while the network is built, between one neuron
/// and the next: lists and links agree; every neuron has its links from
/// neurons before it, and from among the first `previous` only; the neurons
/// from `previous` on, which are those of the layer under way, have a link
/// from each of the first `previous` and no outgoing link yet; every neuron
/// is off, and every link is unblamed with a weight of magnitude at most one.
spec fn partly_wired(neurons: Seq<Neuron>, links: Seq<Link>, previous: int) -> bool {
    &&& wired(backs(neurons), fronts(neurons), ends(links))
    &&& 0 <= previous <= neurons.len()
    &&& forall|x: int|
        0 <= x < neurons.len() ==> (#[trigger] backs(neurons)[x]).len() <= x && backs(
            neurons,
        )[x].len() <= previous
    &&& forall|n: int|
        previous <= n < neurons.len() ==> (#[trigger] fronts(neurons)[n]).len() == 0 && backs(
            neurons,
        )[n].len() == previous
    &&& forall|n: int| 0 <= n < neurons.len() ==> (#[trigger] neurons[n]).state == NeuronState::Off
    &&& forall|id: int|
        0 <= id < links.len() ==> !(#[trigger] links[id]).punish_back && -WEIGHT_ONE
            <= links[id].weight <= WEIGHT_ONE
}

impl View for Network {
    type V = NetworkModel;

    closed spec fn view(&self) -> NetworkModel {
        NetworkModel {
            sizes: sizes_of(self.layers@),
            states: Seq::new(self.neurons@.len(), |n: int| self.neurons@[n].state),
            incoming: Seq::new(
                self.neurons@.len(),
                |d: int|
                    Seq::new(
                        backs(self.neurons@)[d].len(),
                        |s: int| self.links@[backs(self.neurons@)[d][s] as int].model(),
                    ),
            ),
        }
    }
}

impl Network {
    /// What holds of the arenas: the link lists and the links agree, layer
    /// `k` lists its neurons by number, and no weight is beyond the limit.
    pub closed spec fn inv(&self) -> bool {
        &&& wired(backs(self.neurons@), fronts(self.neurons@), ends(self.links@))
        &&& forall|k: int, j: int|
            0 <= k < self.layers@.len() && 0 <= j < self.layers@[k]@.len()
                ==> #[trigger] self.layers@[k]@[j] == neurons_before(sizes_of(self.layers@), k) + j
        &&& forall|id: int|
            0 <= id < self.links@.len() ==> -WEIGHT_LIMIT <= (#[trigger] self.links@[id]).weight
                <= WEIGHT_LIMIT
    }

    /// The network is well-formed.
    pub open spec fn wf(&self) -> bool {
        self.inv() && self@.well_formed()
    }

    /// What entry `s` of the incoming list of neuron `d` names.
    proof fn lemma_back_entry(&self, d: int, s: int)
        requires
            self.inv(),
            0 <= d < self.neurons@.len(),
            0 <= s < self.neurons@[d].back@.len(),
        ensures
            self.neurons@[d].back@[s] < self.links@.len(),
            self.links@[self.neurons@[d].back@[s] as int].source == s,
            self.links@[self.neurons@[d].back@[s] as int].dest == d,
            self@.has_link(s, d),
            self@.incoming[d][s] == self.links@[self.neurons@[d].back@[s] as int].model(),
    {
        let id = backs(self.neurons@)[d][s];
        assert(ends(self.links@)[id as int].0 == s);
    }

    /// What entry `j` of the outgoing list of neuron `n` names.
    proof fn lemma_forward_entry(&self, n: int, j: int)
        requires
            self.inv(),
            0 <= n < self.neurons@.len(),
            0 <= j < self.neurons@[n].forward@.len(),
        ensures
            self.neurons@[n].forward@.len() <= self.neurons@.len(),
            self.neurons@[n].forward@[j] < self.links@.len(),
            self.links@[self.neurons@[n].forward@[j] as int].source == n,
            self.links@[self.neurons@[n].forward@[j] as int].dest == self.neurons@.len()
                - self.neurons@[n].forward@.len() + j,
            self@.has_link(n, self.neurons@.len() - self.neurons@[n].forward@.len() + j),
            self@.incoming[self.neurons@.len() - self.neurons@[n].forward@.len() + j][n]
                == self.links@[self.neurons@[n].forward@[j] as int].model(),
    {
        let d = self.neurons@.len() - self.neurons@[n].forward@.len() + j;
        let id = fronts(self.neurons@)[n][j];
        assert(fronts(self.neurons@)[n].len() <= self.neurons@.len());
        assert(n < backs(self.neurons@)[d].len());
        assert(id == backs(self.neurons@)[d][n]);
        assert(ends(self.links@)[id as int].0 == n);
    }

    /// Every link is listed by the neuron it ends in.
    proof fn lemma_link_listed(&self, id: int)
        requires
            self.inv(),
            0 <= id < self.links@.len(),
        ensures
            self@.has_link(self.links@[id].source as int, self.links@[id].dest as int),
            self.neurons@[self.links@[id].dest as int].back@[self.links@[id].source as int] == id,
            self@.incoming[self.links@[id].dest as int][self.links@[id].source as int]
                == self.links@[id].model(),
    {
        let (s, d) = ends(self.links@)[id];
        assert(backs(self.neurons@)[d as int][s as int] == id);
    }

    /// A neuron has no outgoing links exactly if it is an output neuron.
    proof fn lemma_forward_empty(&self, n: int)
        requires
            self.wf(),
            0 <= n < self.neurons@.len(),
        ensures
            (self.neurons@[n].forward@.len() == 0) == self@.is_output(n),
            (self.neurons@[n].back@.len() == 0) == (self@.fan_in(n) == 0),
            self.neurons@[n].forward@.len() <= self.neurons@.len(),
            forall|d: int|
                0 <= d < self.neurons@.len() - self.neurons@[n].forward@.len()
                    ==> #[trigger] self@.fan_in(d) <= n,
    {
        lemma_fan_in(self@);
        let count = self.neurons@.len() as int;
        let last = count - 1;
        assert(fronts(self.neurons@)[n].len() <= count);
        assert(self@.fan_in(last) == backs(self.neurons@)[last].len());
        assert forall|d: int|
            0 <= d < count - self.neurons@[n].forward@.len() implies #[trigger] self@.fan_in(d)
            <= n by {
            assert(self@.fan_in(d) == backs(self.neurons@)[d].len());
        }
    }

    /// A network whose links were rewritten one by one to those of `target`,
    /// ends and limits kept, is well-formed and is `target`.
    proof fn lemma_relinked(before: Network, after: Network, target: NetworkModel)
        requires
            before.wf(),
            after.layers == before.layers,
            after.neurons == before.neurons,
            after.links@.len() == before.links@.len(),
            ends(after.links@) == ends(before.links@),
            target.sizes == before@.sizes,
            target.states == before@.states,
            target.incoming.len() == before@.incoming.len(),
            forall|d: int|
                0 <= d < target.incoming.len() ==> (#[trigger] target.incoming[d]).len()
                    == before@.incoming[d].len(),
            forall|id: int|
                0 <= id < after.links@.len() ==> -WEIGHT_LIMIT <= (
                #[trigger] after.links@[id]).weight <= WEIGHT_LIMIT && after.links@[id].model()
                    == at_link(target, before.links@[id]),
        ensures
            after.wf(),
            after@ == target,
    {
        assert forall|d: int, s: int|
            0 <= d < target.incoming.len() && 0 <= s < target.incoming[d].len() implies (
        #[trigger] after@.incoming[d][s]) == target.incoming[d][s] by {
            before.lemma_back_entry(d, s);
        }
        assert(after@ =~~= target);
        lemma_same_shape(before@, after@);
    }

    /// Adds a neuron that is off, with a link of random weight from each of
    /// the first `previous` neurons.
    fn add_neuron(
        neurons: &mut Vec<Neuron>,
        links: &mut Vec<Link>,
        previous: usize,
        rng: &mut ThreadRng,
    )
        requires
            partly_wired(old(neurons)@, old(links)@, previous as int),
        ensures
            partly_wired(final(neurons)@, final(links)@, previous as int),
            final(neurons)@.len() == old(neurons)@.len() + 1,
            forall|x: int|
                0 <= x < old(neurons)@.len() ==> #[trigger] backs(final(neurons)@)[x] == backs(
                    old(neurons)@,
                )[x],
    {
        let ghost neurons0 = neurons@;
        let ghost links0 = links@;
        let d = neurons.len();
        let mut neuron = Neuron::default();
        let mut s: usize = 0;
        while s < previous
            invariant
                partly_wired(neurons0, links0, previous as int),
                s <= previous <= d,
                d == neurons0.len(),
                neurons@.len() == d,
                links@.len() == links0.len() + s,
                forall|id: int| 0 <= id < links0.len() ==> #[trigger] links@[id] == links0[id],
                forall|id: int|
                    links0.len() <= id < links@.len() ==> {
                        let link = #[trigger] links@[id];
                        &&& link.source == id - links0.len()
                        &&& link.dest == d
                        &&& !link.punish_back
                        &&& -WEIGHT_ONE <= link.weight <= WEIGHT_ONE
                    },
                neuron.state == NeuronState::Off,
                neuron.forward@.len() == 0,
                neuron.back@.len() == s,
                forall|i: int| 0 <= i < s ==> #[trigger] neuron.back@[i] == links0.len() + i,
                forall|n: int|
                    0 <= n < d ==> (#[trigger] neurons@[n]).state == neurons0[n].state
                        && neurons@[n].back@ == neurons0[n].back@,
                forall|n: int|
                    s <= n < d ==> (#[trigger] neurons@[n]).forward@ == neurons0[n].forward@,
                forall|n: int|
                    0 <= n < s ==> (#[trigger] neurons@[n]).forward@ == neurons0[n].forward@.push(
                        neurons@[n].forward@.last(),
                    ) && neurons@[n].forward@.last() == links0.len() + n,
            decreases previous - s,
        {
            let id = links.len();
            let weight = draw_between(rng, -WEIGHT_ONE, WEIGHT_ONE);
            links.push(Link::new(weight, s, d));
            neuron.back.push(id);
            neurons[s].forward.push(id);
            proof {
                assert(neurons@[s as int].forward@ == neurons0[s as int].forward@.push(id));
                assert(neurons@[s as int].forward@.last() == id);
            }
            s += 1;
        }
        neurons.push(neuron);
        proof {
            let backs0 = backs(neurons0);
            let fronts0 = fronts(neurons0);
            let ends0 = ends(links0);
            let backs1 = backs(neurons@);
            let fronts1 = fronts(neurons@);
            let ends1 = ends(links@);
            assert forall|x: int| 0 <= x < d implies #[trigger] backs1[x] == backs0[x] by {
                assert(neurons@[x].back@ == neurons0[x].back@);
            }
            assert forall|n: int| 0 <= n < previous implies (#[trigger] fronts1[n]).len()
                == fronts0[n].len() + 1 && fronts1[n][fronts0[n].len() as int] == ends0.len()
                + n by {
                assert(neurons@[n].forward@ == neurons0[n].forward@.push(
                    neurons@[n].forward@.last(),
                ));
            }
            assert forall|n: int, j: int|
                0 <= n < previous && 0 <= j < fronts0[n].len() implies #[trigger] fronts1[n][j]
                == fronts0[n][j] by {
                assert(neurons@[n].forward@ == neurons0[n].forward@.push(
                    neurons@[n].forward@.last(),
                ));
            }
            assert forall|n: int| previous <= n < d implies #[trigger] fronts1[n] == fronts0[n] by {
                assert(neurons@[n].forward@ == neurons0[n].forward@);
            }
            assert forall|id: int| 0 <= id < ends0.len() implies #[trigger] ends1[id]
                == ends0[id] by {
                assert(links@[id] == links0[id]);
            }
            assert forall|id: int| ends0.len() <= id < ends1.len() implies (
            #[trigger] ends1[id]).0 == id - ends0.len() && ends1[id].1 == d by {
                assert(links@[id].dest == d);
            }
            assert forall|i: int| 0 <= i < previous implies #[trigger] backs1[d as int][i]
                == ends0.len() + i by {
                assert(neurons@[d as int].back@[i] == links0.len() + i);
            }
            lemma_wired_grows(backs0, fronts0, ends0, backs1, fronts1, ends1, previous as int);
            assert forall|x: int| 0 <= x < neurons@.len() implies (#[trigger] backs1[x]).len() <= x
                && backs1[x].len() <= previous by {
                if x < d {
                    assert(backs1[x] == backs0[x]);
                }
            }
            assert forall|n: int| previous <= n < neurons@.len() implies (
            #[trigger] fronts1[n]).len() == 0 && backs1[n].len() == previous by {
                if n < d {
                    assert(fronts1[n] == fronts0[n]);
                    assert(backs1[n] == backs0[n]);
                }
            }
            assert forall|n: int| 0 <= n < neurons@.len() implies (#[trigger] neurons@[n]).state
                == NeuronState::Off by {
                if n < d {
                    assert(neurons0[n].state == NeuronState::Off);
                }
            }
            assert forall|id: int| 0 <= id < links@.len() implies !(
            #[trigger] links@[id]).punish_back && -WEIGHT_ONE <= links@[id].weight
                <= WEIGHT_ONE by {
                if id < links0.len() {
                    assert(links@[id] == links0[id]);
                }
            }
        }
    }

    /// Whether the layer sizes describe a network.
    fn dimensions_valid(dimensions: &[usize]) -> (valid: bool)
        ensures
            valid == valid_dimensions(dimensions@),
    {
        if dimensions.len() == 0 {
            return false;
        }
        let mut k: usize = 0;
        while k < dimensions.len()
            invariant
                k <= dimensions@.len(),
                forall|a: int| 0 <= a < k ==> dimensions@[a] > 0,
            decreases dimensions@.len() - k,
        {
            if dimensions[k] == 0 {
                return false;
            }
            k += 1;
        }
        true
    }

    /// Builds a network with layers of the given sizes. Every neuron is
    /// linked from every neuron of every earlier layer, not only from the
    /// layer before it; every neuron is off, no link is blamed, and each
    /// weight is drawn at random between minus one and one. Sizes that are
    /// empty or name an empty layer are refused.
    pub fn new(dimensions: &[usize]) -> (result: Result<Network, NetworkError>)
        ensures
            !valid_dimensions(dimensions@) ==> result is Err && result->Err_0
                == NetworkError::InvalidTopology,
            valid_dimensions(dimensions@) ==> result is Ok && {
                let net = result->Ok_0;
                &&& net.wf()
                &&& net@.has_shape(dimensions@)
                &&& net@.all_off()
                &&& net@.flags_clear()
                &&& net@.weights_between(-WEIGHT_ONE as int, WEIGHT_ONE as int)
                &&& forall|k: int, j: int|
                    0 <= k < dimensions@.len() && 0 <= j < dimensions@[k] ==> net@.fan_in(
                        #[trigger] net@.neuron_at(k, j),
                    ) == neurons_before(as_sizes(dimensions@), k)
            },
    {
        if !Self::dimensions_valid(dimensions) {
            return Err(NetworkError::InvalidTopology);
        }
        let mut rng = thread_generator();
        let mut layers: Vec<Vec<usize>> = Vec::new();
        let mut neurons: Vec<Neuron> = Vec::new();
        let mut links: Vec<Link> = Vec::new();
        let ghost sizes = as_sizes(dimensions@);
        let mut k: usize = 0;
        while k < dimensions.len()
            invariant
                k <= dimensions@.len(),
                layers@.len() == k,
                sizes == as_sizes(dimensions@),
                neurons@.len() == neurons_before(sizes, k as int),
                partly_wired(neurons@, links@, neurons@.len() as int),
                forall|a: int| 0 <= a < k ==> (#[trigger] layers@[a])@.len() == dimensions@[a],
                forall|a: int, b: int|
                    0 <= a < k && 0 <= b < dimensions@[a] ==> #[trigger] layers@[a]@[b]
                        == neurons_before(sizes, a) + b,
                forall|a: int, b: int|
                    0 <= a < k && 0 <= b < dimensions@[a] ==> backs(neurons@)[#[trigger] place(
                        sizes,
                        a,
                        b,
                    )].len() == neurons_before(sizes, a),
            decreases dimensions@.len() - k,
        {
            let count = dimensions[k];
            let previous = neurons.len();
            let mut layer: Vec<usize> = Vec::new();
            let mut j: usize = 0;
            while j < count
                invariant
                    k < dimensions@.len(),
                    j <= count,
                    count == dimensions@[k as int],
                    sizes == as_sizes(dimensions@),
                    previous == neurons_before(sizes, k as int),
                    neurons@.len() == previous + j,
                    partly_wired(neurons@, links@, previous as int),
                    layer@.len() == j,
                    forall|b: int| 0 <= b < j ==> #[trigger] layer@[b] == previous + b,
                    forall|a: int, b: int|
                        0 <= a < k && 0 <= b < dimensions@[a] ==> backs(
                            neurons@,
                        )[#[trigger] place(sizes, a, b)].len() == neurons_before(sizes, a),
                decreases count - j,
            {
                let d = neurons.len();
                let ghost before = neurons@;
                Self::add_neuron(&mut neurons, &mut links, previous, &mut rng);
                layer.push(d);
                proof {
                    assert forall|a: int, b: int|
                        0 <= a < k && 0 <= b < dimensions@[a] implies backs(
                        neurons@,
                    )[#[trigger] place(sizes, a, b)].len() == neurons_before(sizes, a) by {
                        lemma_neurons_before_grows(sizes, a + 1, k as int);
                        assert(backs(neurons@)[place(sizes, a, b)] == backs(before)[place(
                            sizes,
                            a,
                            b,
                        )]);
                    }
                }
                j += 1;
            }
            layers.push(layer);
            proof {
                assert forall|a: int, b: int|
                    0 <= a < k + 1 && 0 <= b < dimensions@[a] implies backs(
                    neurons@,
                )[#[trigger] place(sizes, a, b)].len() == neurons_before(sizes, a) by {
                    if a == k {
                        assert(fronts(neurons@)[previous + b].len() == 0);
                    }
                }
            }
            k += 1;
        }
        let net = Network { layers, neurons, links };
        proof {
            assert(net@.sizes =~= sizes);
            assert forall|a: int, b: int|
                0 <= a < sizes.len() && 0 <= b < sizes[a] implies net@.fan_in(
                #[trigger] net@.neuron_at(a, b),
            ) == net@.layer_start(a) by {
                assert(backs(net.neurons@)[place(sizes, a, b)].len() == neurons_before(sizes, a));
                lemma_neurons_before_grows(sizes, a + 1, sizes.len() as int);
            }
            assert forall|s: int, d: int| net@.has_link(s, d) implies !(
            #[trigger] net@.incoming[d][s]).punish_back && -WEIGHT_ONE
                <= net@.incoming[d][s].weight <= WEIGHT_ONE by {
                let id = backs(net.neurons@)[d][s];
                assert(id < ends(net.links@).len());
            }
        }
        Ok(net)
    }

    /// The sizes of the layers, the input layer first.
    pub fn layer_sizes(&self) -> (sizes: Vec<usize>)
        ensures
            self@.has_shape(sizes@),
    {
        let mut sizes: Vec<usize> = Vec::with_capacity(self.layers.len());
        let mut k: usize = 0;
        while k < self.layers.len()
            invariant
                k <= self.layers@.len(),
                sizes@.len() == k,
                forall|a: int| 0 <= a < k ==> #[trigger] sizes@[a] == self.layers@[a]@.len(),
            decreases self.layers@.len() - k,
        {
            sizes.push(self.layers[k].len());
            k += 1;
        }
        assert(self@.sizes =~= as_sizes(sizes@));
        sizes
    }

    /// The number of neurons.
    pub fn neuron_count(&self) -> (count: usize)
        ensures
            count == self@.neuron_count(),
    {
        self.neurons.len()
    }

    /// The state of neuron `n`, if there is such a neuron.
    pub fn state(&self, n: usize) -> (state: Option<NeuronState>)
        ensures
            state == if n < self@.neuron_count() {
                Some(self@.states[n as int])
            } else {
                None
            },
    {
        if n < self.neurons.len() {
            Some(self.neurons[n].state)
        } else {
            None
        }
    }

    /// The number of the link from `source` to `dest`, if there is one.
    fn link_id(&self, source: usize, dest: usize) -> (id: Option<usize>)
        requires
            self.wf(),
        ensures
            id is Some == self@.has_link(source as int, dest as int),
            id matches Some(i) ==> i < self.links@.len() && self.links@[i as int].source == source
                && self.links@[i as int].dest == dest && self@.incoming[dest as int][source as int]
                == self.links@[i as int].model(),
    {
        if dest < self.neurons.len() && source < self.neurons[dest].back.len() {
            proof {
                self.lemma_back_entry(dest as int, source as int);
            }
            Some(self.neurons[dest].back[source])
        } else {
            assert(dest < self.neurons@.len() ==> self@.incoming[dest as int].len()
                == self.neurons@[dest as int].back@.len());
            None
        }
    }

    /// The weight of the link from `source` to `dest`, if there is one.
    pub fn weight(&self, source: usize, dest: usize) -> (weight: Option<i64>)
        requires
            self.wf(),
        ensures
            weight is Some == self@.has_link(source as int, dest as int),
            weight matches Some(w) ==> w == self@.incoming[dest as int][source as int].weight,
    {
        match self.link_id(source, dest) {
            Some(id) => Some(self.links[id].weight),
            None => None,
        }
    }

    /// Whether the link from `source` to `dest` is blamed, if there is one.
    pub fn punish_back(&self, source: usize, dest: usize) -> (blamed: Option<bool>)
        requires
            self.wf(),
        ensures
            blamed is Some == self@.has_link(source as int, dest as int),
            blamed matches Some(b) ==> b == self@.incoming[dest as int][source as int].punish_back,
    {
        match self.link_id(source, dest) {
            Some(id) => Some(self.links[id].punish_back),
            None => None,
        }
    }

    /// Gives the link from `source` to `dest` the given weight. Says whether
    /// it did: not if there is no such link or the weight is beyond the
    /// limit, and then nothing changes.
    pub fn set_weight(&mut self, source: usize, dest: usize, weight: i64) -> (done: bool)
        requires
            old(self).wf(),
        ensures
            final(self).wf(),
            done == (old(self)@.has_link(source as int, dest as int) && -WEIGHT_LIMIT <= weight
                <= WEIGHT_LIMIT),
            done ==> final(self)@ == old(self)@.with_weight(
                source as int,
                dest as int,
                weight as int,
            ),
            !done ==> final(self)@ == old(self)@,
    {
        if weight < -WEIGHT_LIMIT || weight > WEIGHT_LIMIT {
            return false;
        }
        match self.link_id(source, dest) {
            Some(id) => {
                let ghost before = *self;
                let ghost target = before@.with_weight(source as int, dest as int, weight as int);
                self.links[id].weight = weight;
                proof {
                    assert(ends(self.links@) =~= ends(before.links@));
                    assert forall|x: int| 0 <= x < self.links@.len() implies -WEIGHT_LIMIT <= (
                    #[trigger] self.links@[x]).weight <= WEIGHT_LIMIT && self.links@[x].model()
                        == at_link(target, before.links@[x]) by {
                        before.lemma_link_listed(x);
                        before.lemma_link_listed(id as int);
                        if x != id {
                            assert(self.links@[x] == before.links@[x]);
                        }
                    }
                    Self::lemma_relinked(before, *self, target);
                }
                true
            },
            None => false,
        }
    }

    /// Whether every weight is far enough from the limit for a training step.
    pub fn can_fit(&self) -> (room: bool)
        requires
            self.wf(),
        ensures
            room == self@.room_to_fit(),
    {
        let mut id: usize = 0;
        while id < self.links.len()
            invariant
                self.wf(),
                id <= self.links@.len(),
                forall|x: int|
                    0 <= x < id ==> -WEIGHT_LIMIT + 2 * WEIGHT_DECREASE_RATE <= (
                    #[trigger] self.links@[x]).weight <= WEIGHT_LIMIT - WEIGHT_INCREASE_RATE,
            decreases self.links@.len() - id,
        {
            let weight = self.links[id].weight;
            if weight < -WEIGHT_LIMIT + 2 * WEIGHT_DECREASE_RATE || weight > WEIGHT_LIMIT
                - WEIGHT_INCREASE_RATE {
                proof {
                    self.lemma_link_listed(id as int);
                }
                return false;
            }
            id += 1;
        }
        proof {
            assert forall|s: int, d: int| self@.has_link(s, d) implies -WEIGHT_LIMIT + 2
                * WEIGHT_DECREASE_RATE <= (#[trigger] self@.incoming[d][s]).weight <= WEIGHT_LIMIT
                - WEIGHT_INCREASE_RATE by {
                self.lemma_back_entry(d, s);
            }
        }
        true
    }

    /// Activates neuron `n`: it switches on if what reaches it over its
    /// incoming links is at least the sensitivity, and off otherwise.
    pub fn forward(&mut self, n: usize)
        requires
            old(self).wf(),
            n < old(self)@.neuron_count(),
        ensures
            final(self).wf(),
            final(self)@ == old(self)@.forward(n as int),
    {
        let mut state_sum: i128 = 0;
        let count = self.neurons[n].back.len();
        let mut s: usize = 0;
        proof {
            lemma_fan_in(self@);
            assert(self@.fan_in(n as int) == count);
        }
        while s < count
            invariant
                self.wf(),
                *self == *old(self),
                n < self.neurons@.len(),
                count == self.neurons@[n as int].back@.len(),
                count <= n,
                s <= count,
                state_sum == signal_sum(self@.incoming[n as int], self@.states, s as int),
                -(s * WEIGHT_LIMIT) <= state_sum <= s * WEIGHT_LIMIT,
            decreases count - s,
        {
            let id = self.neurons[n].back[s];
            assert(id == backs(self.neurons@)[n as int][s as int]);
            assert(ends(self.links@)[id as int].0 == s);
            let weight = self.links[id].weight;
            let source = self.links[id].source;
            let signal = self.neurons[source].state.mul(weight);
            state_sum = state_sum + signal as i128;
            s += 1;
        }
        let state = if state_sum >= NEURON_SENSITIVITY as i128 {
            NeuronState::On
        } else {
            NeuronState::Off
        };
        self.neurons[n].state = state;
        proof {
            assert(backs(self.neurons@) =~~= backs(old(self).neurons@));
            assert(fronts(self.neurons@) =~~= fronts(old(self).neurons@));
            assert(self@ =~~= old(self)@.forward(n as int));
            lemma_same_shape(old(self)@, self@);
        }
    }

    /// The forward pass: sets the input layer to `input`, activates every
    /// other neuron layer by layer, and returns the states of the output
    /// layer. An input of the wrong length is refused and changes nothing.
    pub fn calc(&mut self, input: &[NeuronState]) -> (result: Result<
        Vec<NeuronState>,
        NetworkError,
    >)
        requires
            old(self).wf(),
        ensures
            final(self).wf(),
            final(self)@ == old(self)@.after_calc(input@),
            (match result {
                Ok(output) => old(self)@.calc_output(input@) == Ok::<
                    Seq<NeuronState>,
                    NetworkError,
                >(output@),
                Err(error) => old(self)@.calc_output(input@) == Err::<
                    Seq<NeuronState>,
                    NetworkError,
                >(error),
            }),
            final(self)@.sizes == old(self)@.sizes,
            final(self)@.incoming == old(self)@.incoming,
    {
        let ghost start = self@;
        let ghost fed = start.with_input(input@);
        let layer_count = self.layers.len();
        proof {
            lemma_fan_in(start);
            assert(start.sizes[0] == self.layers@[0]@.len());
        }
        if input.len() != self.layers[0].len() {
            return Err(NetworkError::ShapeMismatch);
        }
        let mut i: usize = 0;
        while i < input.len()
            invariant
                self.inv(),
                self.layers == old(self).layers,
                self.links == old(self).links,
                self.neurons@.len() == old(self).neurons@.len(),
                backs(self.neurons@) == backs(old(self).neurons@),
                fronts(self.neurons@) == fronts(old(self).neurons@),
                input@.len() == self.layers@[0]@.len(),
                0 < self.layers@.len(),
                input@.len() <= self.neurons@.len(),
                i <= input@.len(),
                forall|x: int|
                    0 <= x < self.neurons@.len() ==> (#[trigger] self.neurons@[x]).state == if x
                        < i {
                        input@[x]
                    } else {
                        old(self).neurons@[x].state
                    },
            decreases input@.len() - i,
        {
            let n = self.layers[0][i];
            assert(n == i) by {
                assert(self.layers@[0]@[i as int] == neurons_before(sizes_of(self.layers@), 0) + i);
            }
            let ghost before = self.neurons@;
            self.neurons[n].state = input[i];
            proof {
                assert(backs(self.neurons@) =~~= backs(before));
                assert(fronts(self.neurons@) =~~= fronts(before));
            }
            i += 1;
        }
        proof {
            assert(self@.incoming =~~= fed.incoming) by {
                assert forall|d: int| 0 <= d < self.neurons@.len() implies self.neurons@[d].back@
                    == old(self).neurons@[d].back@ by {
                    assert(backs(self.neurons@)[d] == backs(old(self).neurons@)[d]);
                }
            }
            assert(self@ =~~= fed);
            lemma_same_shape(start, self@);
            assert(neurons_before(start.sizes, 1) == neurons_before(start.sizes, 0)
                + start.sizes[0]);
        }
        let mut k: usize = 1;
        while k < layer_count
            invariant
                self.wf(),
                layer_count == self.layers@.len(),
                1 <= k <= layer_count,
                self@.sizes == start.sizes,
                self@.incoming == start.incoming,
                fed.sizes == start.sizes,
                neurons_before(start.sizes, 1) == start.sizes[0],
                self@ == fed.settled(neurons_before(start.sizes, k as int) as int),
            decreases layer_count - k,
        {
            let size = self.layers[k].len();
            let mut j: usize = 0;
            while j < size
                invariant
                    self.wf(),
                    layer_count == self.layers@.len(),
                    1 <= k < layer_count,
                    size == self.layers@[k as int]@.len(),
                    j <= size,
                    self@.sizes == start.sizes,
                    self@.incoming == start.incoming,
                    fed.sizes == start.sizes,
                    neurons_before(start.sizes, 1) == start.sizes[0],
                    self@ == fed.settled(neurons_before(start.sizes, k as int) + j),
                decreases size - j,
            {
                let n = self.layers[k][j];
                proof {
                    assert(n == neurons_before(start.sizes, k as int) + j);
                    assert(start.sizes[k as int] == size);
                    lemma_neurons_before_grows(start.sizes, k + 1, layer_count as int);
                    lemma_neurons_before_grows(start.sizes, 1, k as int);
                }
                self.forward(n);
                j += 1;
            }
            k += 1;
        }
        let last = layer_count - 1;
        let size = self.layers[last].len();
        let mut out: Vec<NeuronState> = Vec::with_capacity(size);
        let mut j: usize = 0;
        proof {
            lemma_fan_in(self@);
        }
        while j < size
            invariant
                self.wf(),
                self@.sizes == start.sizes,
                self@.incoming == start.incoming,
                self@ == fed.settled(start.states.len() as int),
                last == self.layers@.len() - 1,
                size == self.layers@[last as int]@.len(),
                size == self@.output_size(),
                self@.output_start() + self@.output_size() == self@.neuron_count(),
                j <= size,
                out@.len() == j,
                forall|x: int| 0 <= x < j ==> out@[x] == self@.states[self@.output_start() + x],
            decreases size - j,
        {
            let n = self.layers[last][j];
            assert(n == self@.output_start() + j);
            out.push(self.neurons[n].state);
            j += 1;
        }
        assert(out@ =~= self@.output());
        Ok(out)
    }

    /// The blamed part and the whole of the weight that leaves neuron `n`.
    fn outgoing_sums(&self, n: usize) -> (sums: (i128, i128))
        requires
            self.wf(),
            n < self@.neuron_count(),
        ensures
            sums.0 == self@.blamed_weight(n as int, self@.neuron_count() as int),
            sums.1 == self@.outgoing_weight(n as int, self@.neuron_count() as int),
            -sum_limit() <= sums.0 <= sum_limit(),
            -sum_limit() <= sums.1 <= sum_limit(),
    {
        let mut correction_weight: i128 = 0;
        let mut weight_sum: i128 = 0;
        let count = self.neurons[n].forward.len();
        let ghost first = self.neurons@.len() - count;
        proof {
            self.lemma_forward_empty(n as int);
            lemma_no_outgoing_before(self@, n as int, first);
        }
        let mut j: usize = 0;
        while j < count
            invariant
                self.wf(),
                n < self.neurons@.len(),
                count == self.neurons@[n as int].forward@.len(),
                count <= self.neurons@.len(),
                first == self.neurons@.len() - count,
                j <= count,
                weight_sum == self@.outgoing_weight(n as int, first + j),
                correction_weight == self@.blamed_weight(n as int, first + j),
                -(j * WEIGHT_LIMIT) <= weight_sum <= j * WEIGHT_LIMIT,
                -(j * WEIGHT_LIMIT) <= correction_weight <= j * WEIGHT_LIMIT,
            decreases count - j,
        {
            let id = self.neurons[n].forward[j];
            proof {
                self.lemma_forward_entry(n as int, j as int);
            }
            let punish = self.links[id].punish_back;
            let weight = self.links[id].weight;
            weight_sum = weight_sum + weight as i128;
            if punish {
                correction_weight = correction_weight + weight as i128;
            }
            j += 1;
        }
        (correction_weight, weight_sum)
    }

    /// Passes the blame of neuron `n` on to its incoming links: a link from
    /// a neuron that is on is strengthened if `n` is off and weakened if `n`
    /// is on; a link that pushed `n` the wrong way is blamed.
    fn blame_inputs(&mut self, n: usize)
        requires
            old(self).wf(),
            n < old(self)@.neuron_count(),
            old(self)@.room_to_punish(n as int),
        ensures
            final(self).wf(),
            final(self)@ == old(self)@.blame_inputs(n as int),
    {
        let ghost before = *self;
        let ghost target = before@.blame_inputs(n as int);
        let state = self.neurons[n].state;
        let count = self.neurons[n].back.len();
        proof {
            lemma_fan_in(before@);
            assert(before@.fan_in(n as int) == count);
        }
        let mut i: usize = 0;
        while i < count
            invariant
                before.wf(),
                n < before.neurons@.len(),
                count == before.neurons@[n as int].back@.len(),
                count <= n,
                i <= count,
                before@.room_to_punish(n as int),
                state == before.neurons@[n as int].state,
                self.layers == before.layers,
                self.neurons == before.neurons,
                self.links@.len() == before.links@.len(),
                ends(self.links@) == ends(before.links@),
                target == before@.blame_inputs(n as int),
                forall|id: int|
                    0 <= id < self.links@.len() ==> -WEIGHT_LIMIT <= (
                    #[trigger] self.links@[id]).weight <= WEIGHT_LIMIT && self.links@[id].model()
                        == if before.links@[id].dest == n && before.links@[id].source < i {
                        target.incoming[n as int][before.links@[id].source as int]
                    } else {
                        before.links@[id].model()
                    },
            decreases count - i,
        {
            let id = self.neurons[n].back[i];
            proof {
                before.lemma_back_entry(n as int, i as int);
                assert(ends(self.links@)[id as int] == ends(before.links@)[id as int]);
            }
            let source = self.links[id].source;
            let source_state = self.neurons[source].state;
            let ghost prev = self.links@;
            match state {
                NeuronState::Off => match source_state {
                    NeuronState::Off => {
                        if self.links[id].weight > 0 {
                            self.links[id].punish_back = true;
                        }
                    },
                    NeuronState::On => {
                        self.links[id].weight += WEIGHT_INCREASE_RATE;
                    },
                },
                NeuronState::On => match source_state {
                    NeuronState::Off => {
                        if self.links[id].weight < 0 {
                            self.links[id].punish_back = true;
                        }
                    },
                    NeuronState::On => {
                        self.links[id].weight -= WEIGHT_DECREASE_RATE;
                        if self.links[id].weight > 0 {
                            self.links[id].punish_back = true;
                        }
                    },
                },
            }
            proof {
                assert(ends(self.links@) =~= ends(prev));
                assert forall|x: int| 0 <= x < self.links@.len() implies -WEIGHT_LIMIT <= (
                #[trigger] self.links@[x]).weight <= WEIGHT_LIMIT && self.links@[x].model()
                    == if before.links@[x].dest == n && before.links@[x].source < i + 1 {
                    target.incoming[n as int][before.links@[x].source as int]
                } else {
                    before.links@[x].model()
                } by {
                    before.lemma_link_listed(x);
                    if x != id {
                        assert(self.links@[x] == prev[x]);
                    }
                }
            }
            i += 1;
        }
        proof {
            assert forall|id: int| 0 <= id < self.links@.len() implies (
            #[trigger] self.links@[id]).model()
                == at_link(target, before.links@[id]) by {
                before.lemma_link_listed(id);
            }
            Self::lemma_relinked(before, *self, target);
        }
    }

    /// Weakens each blamed outgoing link of neuron `n`.
    fn weaken_blamed_outputs(&mut self, n: usize)
        requires
            old(self).wf(),
            n < old(self)@.neuron_count(),
            old(self)@.room_to_punish(n as int),
        ensures
            final(self).wf(),
            final(self)@ == old(self)@.weaken_blamed_outputs(n as int),
    {
        let ghost before = *self;
        let ghost target = before@.weaken_blamed_outputs(n as int);
        let count = self.neurons[n].forward.len();
        let ghost first = self.neurons@.len() - count;
        proof {
            before.lemma_forward_empty(n as int);
            assert forall|id: int| 0 <= id < before.links@.len() implies !((
            #[trigger] before.links@[id]).source == n && before.links@[id].dest < first) by {
                before.lemma_link_listed(id);
                let d = before.links@[id].dest as int;
                if before.links@[id].source == n && d < first {
                    assert(before@.fan_in(d) <= n);
                }
            }
        }
        let mut j: usize = 0;
        while j < count
            invariant
                before.wf(),
                n < before.neurons@.len(),
                count == before.neurons@[n as int].forward@.len(),
                count <= before.neurons@.len(),
                first == before.neurons@.len() - count,
                j <= count,
                before@.room_to_punish(n as int),
                self.layers == before.layers,
                self.neurons == before.neurons,
                self.links@.len() == before.links@.len(),
                ends(self.links@) == ends(before.links@),
                target == before@.weaken_blamed_outputs(n as int),
                forall|id: int|
                    0 <= id < self.links@.len() ==> -WEIGHT_LIMIT <= (
                    #[trigger] self.links@[id]).weight <= WEIGHT_LIMIT && self.links@[id].model()
                        == if before.links@[id].source == n && before.links@[id].dest < first + j {
                        target.incoming[before.links@[id].dest as int][n as int]
                    } else {
                        before.links@[id].model()
                    },
            decreases count - j,
        {
            let id = self.neurons[n].forward[j];
            proof {
                before.lemma_forward_entry(n as int, j as int);
                before.lemma_link_listed(id as int);
            }
            let ghost prev = self.links@;
            if self.links[id].punish_back {
                self.links[id].weight -= WEIGHT_DECREASE_RATE;
            }
            proof {
                assert(ends(self.links@) =~= ends(prev));
                assert forall|x: int| 0 <= x < self.links@.len() implies -WEIGHT_LIMIT <= (
                #[trigger] self.links@[x]).weight <= WEIGHT_LIMIT && self.links@[x].model()
                    == if before.links@[x].source == n && before.links@[x].dest < first + j + 1 {
                    target.incoming[before.links@[x].dest as int][n as int]
                } else {
                    before.links@[x].model()
                } by {
                    before.lemma_link_listed(x);
                    if x != id {
                        assert(self.links@[x] == prev[x]);
                    }
                }
            }
            j += 1;
        }
        proof {
            assert forall|id: int| 0 <= id < self.links@.len() implies (
            #[trigger] self.links@[id]).model()
                == at_link(target, before.links@[id]) by {
                before.lemma_link_listed(id);
                let d = before.links@[id].dest as int;
                if before.links@[id].source == n && d < first {
                    assert(before@.fan_in(d) <= n);
                }
            }
            Self::lemma_relinked(before, *self, target);
        }
    }

    /// Takes the blame off every outgoing link of neuron `n`.
    fn clear_output_flags(&mut self, n: usize)
        requires
            old(self).wf(),
            n < old(self)@.neuron_count(),
        ensures
            final(self).wf(),
            final(self)@ == old(self)@.clear_output_flags(n as int),
    {
        let ghost before = *self;
        let ghost target = before@.clear_output_flags(n as int);
        let count = self.neurons[n].forward.len();
        let ghost first = self.neurons@.len() - count;
        proof {
            before.lemma_forward_empty(n as int);
            assert forall|id: int| 0 <= id < before.links@.len() implies !((
            #[trigger] before.links@[id]).source == n && before.links@[id].dest < first) by {
                before.lemma_link_listed(id);
                let d = before.links@[id].dest as int;
                if before.links@[id].source == n && d < first {
                    assert(before@.fan_in(d) <= n);
                }
            }
        }
        let mut j: usize = 0;
        while j < count
            invariant
                before.wf(),
                n < before.neurons@.len(),
                count == before.neurons@[n as int].forward@.len(),
                count <= before.neurons@.len(),
                first == before.neurons@.len() - count,
                j <= count,
                self.layers == before.layers,
                self.neurons == before.neurons,
                self.links@.len() == before.links@.len(),
                ends(self.links@) == ends(before.links@),
                target == before@.clear_output_flags(n as int),
                forall|id: int|
                    0 <= id < self.links@.len() ==> -WEIGHT_LIMIT <= (
                    #[trigger] self.links@[id]).weight <= WEIGHT_LIMIT && self.links@[id].model()
                        == if before.links@[id].source == n && before.links@[id].dest < first + j {
                        target.incoming[before.links@[id].dest as int][n as int]
                    } else {
                        before.links@[id].model()
                    },
            decreases count - j,
        {
            let id = self.neurons[n].forward[j];
            proof {
                before.lemma_forward_entry(n as int, j as int);
                before.lemma_link_listed(id as int);
            }
            let ghost prev = self.links@;
            self.links[id].punish_back = false;
            proof {
                assert(ends(self.links@) =~= ends(prev));
                assert forall|x: int| 0 <= x < self.links@.len() implies -WEIGHT_LIMIT <= (
                #[trigger] self.links@[x]).weight <= WEIGHT_LIMIT && self.links@[x].model()
                    == if before.links@[x].source == n && before.links@[x].dest < first + j + 1 {
                    target.incoming[before.links@[x].dest as int][n as int]
                } else {
                    before.links@[x].model()
                } by {
                    before.lemma_link_listed(x);
                    if x != id {
                        assert(self.links@[x] == prev[x]);
                    }
                }
            }
            j += 1;
        }
        proof {
            assert forall|id: int| 0 <= id < self.links@.len() implies (
            #[trigger] self.links@[id]).model()
                == at_link(target, before.links@[id]) by {
                before.lemma_link_listed(id);
                let d = before.links@[id].dest as int;
                if before.links@[id].source == n && d < first {
                    assert(before@.fan_in(d) <= n);
                }
            }
            Self::lemma_relinked(before, *self, target);
        }
    }

    /// The backward step of neuron `n`. The neuron passes blame on to its
    /// inputs if it is an output neuron, or if it has inputs and more than
    /// the blame share of its outgoing weight is blamed. If it does, its
    /// incoming links are adjusted; if it does not and is on, its blamed
    /// outgoing links are weakened. Then the blame leaves its outgoing links.
    pub fn back(&mut self, n: usize)
        requires
            old(self).wf(),
            n < old(self)@.neuron_count(),
            old(self)@.room_to_punish(n as int),
        ensures
            final(self).wf(),
            final(self)@ == old(self)@.back(n as int),
    {
        let (correction_weight, weight_sum) = self.outgoing_sums(n);
        proof {
            self.lemma_forward_empty(n as int);
        }
        let punish_back = (exceeds_share(correction_weight, weight_sum)
            && !self.neurons[n].back.is_empty()) || self.neurons[n].forward.is_empty();
        assert(punish_back == self@.should_punish_back(n as int));
        match self.neurons[n].state {
            NeuronState::Off => {
                if punish_back {
                    self.blame_inputs(n);
                }
            },
            NeuronState::On => {
                if punish_back {
                    self.blame_inputs(n);
                } else {
                    self.weaken_blamed_outputs(n);
                }
            },
        }
        self.clear_output_flags(n);
    }

    /// The training step. Every output neuron whose state differs from what
    /// is expected of it takes its backward step; then every neuron of the
    /// other layers does, from the last of those layers down to the input
    /// layer. It works on the states that the last forward pass left.
    /// An expectation of the wrong length is refused and changes nothing.
    ///
    /// Afterwards no link is blamed, the states are what they were, and no
    /// weight has risen by more than one rate or fallen by more than two.
    pub fn fit(&mut self, expected: &[NeuronState]) -> (result: Result<(), NetworkError>)
        requires
            old(self).wf(),
            expected@.len() == old(self)@.output_size() ==> old(self)@.room_to_fit(),
        ensures
            final(self).wf(),
            final(self)@ == old(self)@.after_fit(expected@),
            result == old(self)@.fit_outcome(expected@),
            final(self)@.sizes == old(self)@.sizes,
            final(self)@.states == old(self)@.states,
            final(self)@.incoming.len() == old(self)@.incoming.len(),
            forall|d: int|
                0 <= d < old(self)@.incoming.len() ==> (#[trigger] final(self)@.incoming[d]).len()
                    == old(self)@.incoming[d].len(),
            result is Ok || old(self)@.flags_clear() ==> final(self)@.flags_clear(),
            forall|s: int, d: int|
                old(self)@.has_link(s, d) ==> old(self)@.incoming[d][s].weight - 2
                    * WEIGHT_DECREASE_RATE <= (#[trigger] final(self)@.incoming[d][s]).weight
                    <= old(self)@.incoming[d][s].weight + WEIGHT_INCREASE_RATE,
    {
        let ghost start = self@;
        let layer_count = self.layers.len();
        let last = layer_count - 1;
        let size = self.layers[last].len();
        if expected.len() != size {
            return Err(NetworkError::ShapeMismatch);
        }
        let ghost count = start.neuron_count() as int;
        let ghost outputs = start.output_start() as int;
        proof {
            lemma_fan_in(start);
            lemma_sweep_begin(start, outputs);
        }
        let mut j: usize = 0;
        while j < size
            invariant
                self.wf(),
                start.well_formed(),
                start.room_to_fit(),
                count == start.neuron_count(),
                outputs == start.output_start(),
                outputs + size == count,
                layer_count == self.layers@.len(),
                last == layer_count - 1,
                size == self.layers@[last as int]@.len(),
                size == expected@.len(),
                j <= size,
                self@ == start.punish_outputs(expected@, j as int),
                sweep_inv(start, self@, count, outputs, outputs + j),
            decreases size - j,
        {
            let n = self.layers[last][j];
            assert(n == outputs + j);
            proof {
                lemma_fan_in(start);
            }
            if self.neurons[n].state != expected[j] {
                proof {
                    lemma_sweep_room(start, self@, n as int, count, outputs);
                    lemma_sweep_step(start, self@, n as int, count, outputs);
                }
                self.back(n);
            } else {
                proof {
                    lemma_output_is_leaf(start, n as int);
                    lemma_sweep_skip(start, self@, n as int, count, outputs);
                }
            }
            j += 1;
        }
        let ghost mid = self@;
        let mut k: usize = last;
        while k > 0
            invariant
                self.wf(),
                start.well_formed(),
                start.room_to_fit(),
                mid.sizes == start.sizes,
                count == start.neuron_count(),
                layer_count == self.layers@.len(),
                k < layer_count,
                self@ == mid.punish_hidden(k as int),
                sweep_inv(
                    start,
                    self@,
                    neurons_before(start.sizes, k as int) as int,
                    neurons_before(start.sizes, k as int) as int,
                    neurons_before(start.sizes, k as int) as int,
                ),
            decreases k,
        {
            k -= 1;
            let size = self.layers[k].len();
            let ghost begin = self@;
            let ghost low = neurons_before(start.sizes, k as int) as int;
            let ghost from = neurons_before(start.sizes, k + 1) as int;
            let mut j: usize = 0;
            while j < size
                invariant
                    self.wf(),
                    start.well_formed(),
                    start.room_to_fit(),
                    begin.sizes == start.sizes,
                    count == start.neuron_count(),
                    layer_count == self.layers@.len(),
                    k < layer_count - 1,
                    size == self.layers@[k as int]@.len(),
                    low == neurons_before(start.sizes, k as int),
                    from == low + size,
                    j <= size,
                    self@ == begin.punish_layer(k as int, j as int),
                    sweep_inv(start, self@, from, low, low + j),
                decreases size - j,
            {
                let n = self.layers[k][j];
                proof {
                    assert(n == low + j);
                    assert(start.sizes[k as int] == size);
                    assert(start.fan_in(start.neuron_at(k as int, j as int)) == low);
                    lemma_neurons_before_grows(start.sizes, k + 1, layer_count as int);
                    lemma_sweep_room(start, self@, n as int, from, low);
                    lemma_sweep_step(start, self@, n as int, from, low);
                }
                self.back(n);
                j += 1;
            }
        }
        Ok(())
    }
}

} // verus!
