use monkeybrain::{data, Network, NetworkError, NeuronState};

const ON: NeuronState = NeuronState::On;
const OFF: NeuronState = NeuronState::Off;

fn wired(dimensions: &[usize], weights: &[(usize, usize, i64)]) -> Network {
    let mut net = Network::new(dimensions).unwrap();
    for d in 0..net.neuron_count() {
        for s in 0..net.neuron_count() {
            if net.weight(s, d).is_some() {
                assert!(net.set_weight(s, d, 0));
            }
        }
    }
    for (s, d, weight) in weights {
        assert!(net.set_weight(*s, *d, *weight));
    }
    net
}

fn states(net: &Network) -> Vec<NeuronState> {
    (0..net.neuron_count()).map(|n| net.state(n).unwrap()).collect()
}

#[test]
fn calc_refuses_an_input_of_the_wrong_length() {
    let mut net = Network::new(&[4, 1, 1]).unwrap();
    assert_eq!(net.calc(&[ON, OFF, ON]).err(), Some(NetworkError::ShapeMismatch));
    assert_eq!(net.calc(&[ON, OFF, ON, OFF, ON]).err(), Some(NetworkError::ShapeMismatch));
    assert_eq!(net.calc(&[]).err(), Some(NetworkError::ShapeMismatch));
}

#[test]
fn a_refused_calc_changes_no_state() {
    let mut net = wired(&[2, 1], &[(0, 2, 600_000)]);
    assert_eq!(net.calc(&[ON, OFF]), Ok(vec![ON]));
    let before = states(&net);
    assert!(net.calc(&[OFF]).is_err());
    assert_eq!(states(&net), before);
}

#[test]
fn calc_sets_the_input_layer() {
    let mut net = Network::new(&[3, 2]).unwrap();
    net.calc(&[ON, OFF, ON]).unwrap();
    assert_eq!(net.state(0), Some(ON));
    assert_eq!(net.state(1), Some(OFF));
    assert_eq!(net.state(2), Some(ON));
}

#[test]
fn calc_of_a_single_layer_returns_the_input() {
    let mut net = Network::new(&[3]).unwrap();
    assert_eq!(net.calc(&[ON, OFF, ON]), Ok(vec![ON, OFF, ON]));
}

#[test]
fn a_neuron_switches_on_at_the_sensitivity() {
    let mut net = wired(&[2, 1], &[(0, 2, 300_000), (1, 2, 200_000)]);
    assert_eq!(net.calc(&[ON, ON]), Ok(vec![ON]));
    assert_eq!(net.calc(&[ON, OFF]), Ok(vec![OFF]));
    assert_eq!(net.calc(&[OFF, ON]), Ok(vec![OFF]));
    assert_eq!(net.calc(&[OFF, OFF]), Ok(vec![OFF]));
}

#[test]
fn a_neuron_stays_off_just_below_the_sensitivity() {
    let mut net = wired(&[2, 1], &[(0, 2, 300_000), (1, 2, 199_999)]);
    assert_eq!(net.calc(&[ON, ON]), Ok(vec![OFF]));
}

#[test]
fn negative_weights_hold_a_neuron_back() {
    let mut net = wired(&[2, 1], &[(0, 2, 900_000), (1, 2, -500_000)]);
    assert_eq!(net.calc(&[ON, OFF]), Ok(vec![ON]));
    assert_eq!(net.calc(&[ON, ON]), Ok(vec![OFF]));
}

#[test]
fn forward_reads_the_states_of_the_sources() {
    let mut net = wired(&[2, 1], &[(0, 2, 500_000), (1, 2, -1)]);
    net.calc(&[ON, ON]).unwrap();
    assert_eq!(net.state(2), Some(OFF));
    assert!(net.set_weight(1, 2, 0));
    net.forward(2);
    assert_eq!(net.state(2), Some(ON));
    assert!(net.set_weight(0, 2, 499_999));
    net.forward(2);
    assert_eq!(net.state(2), Some(OFF));
}

#[test]
fn the_output_layer_hears_the_input_layer_directly() {
    // The hidden neuron is on and adds a quarter; the input adds the other.
    let mut net = wired(&[1, 1, 1], &[(0, 1, 1_000_000), (0, 2, 250_000), (1, 2, 250_000)]);
    assert_eq!(net.calc(&[ON]), Ok(vec![ON]));
    assert_eq!(states(&net), vec![ON, ON, ON]);
    // Without the direct link the output stays off.
    assert!(net.set_weight(0, 2, 0));
    assert_eq!(net.calc(&[ON]), Ok(vec![OFF]));
    assert_eq!(states(&net), vec![ON, ON, OFF]);
}

#[test]
fn layers_are_activated_in_order() {
    let mut net = wired(
        &[1, 2, 1],
        &[(0, 1, 500_000), (0, 2, 499_999), (1, 3, 300_000), (2, 3, 300_000), (0, 3, 100_000)],
    );
    assert_eq!(net.calc(&[ON]), Ok(vec![OFF]));
    assert_eq!(states(&net), vec![ON, ON, OFF, OFF]);
    assert!(net.set_weight(0, 2, 500_000));
    assert_eq!(net.calc(&[ON]), Ok(vec![ON]));
    assert_eq!(states(&net), vec![ON, ON, ON, ON]);
    assert_eq!(net.calc(&[OFF]), Ok(vec![OFF]));
    assert_eq!(states(&net), vec![OFF, OFF, OFF, OFF]);
}

#[test]
fn calc_returns_every_output_neuron() {
    let mut net = wired(&[1, 3], &[(0, 1, 500_000), (0, 2, 0), (0, 3, 700_000)]);
    assert_eq!(net.calc(&[ON]), Ok(vec![ON, OFF, ON]));
    assert_eq!(net.calc(&[OFF]), Ok(vec![OFF, OFF, OFF]));
}

#[test]
fn calc_changes_no_weight() {
    let mut net = Network::new(&[3, 2, 2]).unwrap();
    let mut before = Vec::new();
    for d in 0..net.neuron_count() {
        for s in 0..net.neuron_count() {
            before.push((net.weight(s, d), net.punish_back(s, d)));
        }
    }
    net.calc(&data(&[1, 0, 1])).unwrap();
    let mut after = Vec::new();
    for d in 0..net.neuron_count() {
        for s in 0..net.neuron_count() {
            after.push((net.weight(s, d), net.punish_back(s, d)));
        }
    }
    assert_eq!(before, after);
}

#[test]
fn calc_is_deterministic() {
    let weights = [
        (0, 2, 400_000),
        (1, 2, 300_000),
        (0, 3, -200_000),
        (1, 3, 800_000),
        (0, 4, 100_000),
        (1, 4, 100_000),
        (2, 4, 300_000),
        (3, 4, 200_000),
    ];
    let mut first = wired(&[2, 2, 1], &weights);
    let mut second = wired(&[2, 2, 1], &weights);
    // The two start a pass from different states.
    second.calc(&[ON, ON]).unwrap();
    for bits in [[0u8, 0], [0, 1], [1, 0], [1, 1]] {
        let input = data(&bits);
        let a = first.calc(&input).unwrap();
        let b = second.calc(&input).unwrap();
        assert_eq!(a, b);
        assert_eq!(states(&first), states(&second));
    }
    assert_eq!(first.calc(&[ON, ON]), Ok(vec![ON]));
    assert_eq!(first.calc(&[OFF, ON]), Ok(vec![OFF]));
}

#[test]
fn calc_twice_gives_the_same_output() {
    let mut net = Network::new(&[4, 3, 2]).unwrap();
    for bits in [[1u8, 0, 0, 1], [0, 0, 0, 0], [1, 1, 1, 1]] {
        let input = data(&bits);
        let once = net.calc(&input).unwrap();
        let settled = states(&net);
        let twice = net.calc(&input).unwrap();
        assert_eq!(once, twice);
        assert_eq!(states(&net), settled);
    }
}

#[test]
fn after_calc_every_neuron_agrees_with_its_activation() {
    let mut net = Network::new(&[3, 3, 2]).unwrap();
    net.calc(&[ON, OFF, ON]).unwrap();
    for d in 3..net.neuron_count() {
        let mut activation: i128 = 0;
        for s in 0..d {
            if let Some(weight) = net.weight(s, d) {
                activation += net.state(s).unwrap().mul(weight) as i128;
            }
        }
        assert_eq!(net.state(d) == Some(ON), activation >= 500_000);
    }
}
