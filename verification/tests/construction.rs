use monkeybrain::weight::{WEIGHT_LIMIT, WEIGHT_ONE};
use monkeybrain::{Network, NetworkError, NeuronState};

fn layer_starts(dimensions: &[usize]) -> Vec<usize> {
    let mut starts = vec![0];
    for size in dimensions {
        starts.push(starts[starts.len() - 1] + size);
    }
    starts
}

#[test]
fn new_refuses_empty_dimensions() {
    assert_eq!(Network::new(&[]).err(), Some(NetworkError::InvalidTopology));
}

#[test]
fn new_refuses_an_empty_layer() {
    assert_eq!(Network::new(&[0]).err(), Some(NetworkError::InvalidTopology));
    assert_eq!(Network::new(&[3, 0, 2]).err(), Some(NetworkError::InvalidTopology));
    assert_eq!(Network::new(&[3, 2, 0]).err(), Some(NetworkError::InvalidTopology));
}

#[test]
fn new_keeps_the_layer_sizes() {
    let net = Network::new(&[4, 1, 1]).unwrap();
    assert_eq!(net.layer_sizes(), vec![4, 1, 1]);
    assert_eq!(net.neuron_count(), 6);
}

#[test]
fn new_builds_a_single_layer_without_links() {
    let net = Network::new(&[3]).unwrap();
    assert_eq!(net.neuron_count(), 3);
    for d in 0..3 {
        for s in 0..3 {
            assert_eq!(net.weight(s, d), None);
        }
    }
}

#[test]
fn every_neuron_is_linked_from_all_earlier_layers() {
    let dimensions = [2, 3, 2, 1];
    let net = Network::new(&dimensions).unwrap();
    let starts = layer_starts(&dimensions);
    for k in 0..dimensions.len() {
        for d in starts[k]..starts[k + 1] {
            let incoming = (0..net.neuron_count()).filter(|s| net.weight(*s, d).is_some()).count();
            assert_eq!(incoming, starts[k]);
            for s in 0..net.neuron_count() {
                assert_eq!(net.weight(s, d).is_some(), s < starts[k]);
            }
        }
    }
}

#[test]
fn links_skip_layers() {
    let net = Network::new(&[1, 1, 1]).unwrap();
    assert!(net.weight(0, 1).is_some());
    assert!(net.weight(0, 2).is_some());
    assert!(net.weight(1, 2).is_some());
    assert!(net.weight(1, 1).is_none());
    assert!(net.weight(2, 1).is_none());
    assert!(net.weight(0, 0).is_none());
}

#[test]
fn new_weights_lie_between_minus_one_and_one() {
    let net = Network::new(&[5, 4, 3]).unwrap();
    for d in 0..net.neuron_count() {
        for s in 0..net.neuron_count() {
            if let Some(weight) = net.weight(s, d) {
                assert!(-WEIGHT_ONE <= weight && weight <= WEIGHT_ONE);
            }
        }
    }
}

#[test]
fn new_weights_are_drawn_not_fixed() {
    let net = Network::new(&[10, 10, 10]).unwrap();
    let mut weights = Vec::new();
    for d in 0..net.neuron_count() {
        for s in 0..net.neuron_count() {
            if let Some(weight) = net.weight(s, d) {
                weights.push(weight);
            }
        }
    }
    assert_eq!(weights.len(), 10 * 10 + 20 * 10);
    assert!(weights.iter().any(|w| *w != -WEIGHT_ONE));
    assert!(weights.iter().any(|w| *w != WEIGHT_ONE));
    assert!(weights.iter().any(|w| *w != weights[0]));
}

#[test]
fn new_neurons_are_off_and_links_unblamed() {
    let net = Network::new(&[3, 2, 2]).unwrap();
    for n in 0..net.neuron_count() {
        assert_eq!(net.state(n), Some(NeuronState::Off));
    }
    assert_eq!(net.state(net.neuron_count()), None);
    for d in 0..net.neuron_count() {
        for s in 0..net.neuron_count() {
            if net.weight(s, d).is_some() {
                assert_eq!(net.punish_back(s, d), Some(false));
            } else {
                assert_eq!(net.punish_back(s, d), None);
            }
        }
    }
}

#[test]
fn new_network_has_room_to_fit() {
    let net = Network::new(&[4, 1, 1]).unwrap();
    assert!(net.can_fit());
}

#[test]
fn set_weight_replaces_one_weight() {
    let mut net = Network::new(&[2, 1]).unwrap();
    let other = net.weight(1, 2).unwrap();
    assert!(net.set_weight(0, 2, 123_456));
    assert_eq!(net.weight(0, 2), Some(123_456));
    assert_eq!(net.weight(1, 2), Some(other));
    assert_eq!(net.punish_back(0, 2), Some(false));
}

#[test]
fn set_weight_refuses_a_link_that_is_not_there() {
    let mut net = Network::new(&[2, 1]).unwrap();
    assert!(!net.set_weight(2, 0, 1));
    assert!(!net.set_weight(0, 1, 1));
    assert!(!net.set_weight(0, 3, 1));
    assert!(!net.set_weight(2, 2, 1));
}

#[test]
fn set_weight_refuses_a_weight_beyond_the_limit() {
    let mut net = Network::new(&[1, 1]).unwrap();
    let before = net.weight(0, 1);
    assert!(!net.set_weight(0, 1, WEIGHT_LIMIT + 1));
    assert!(!net.set_weight(0, 1, -WEIGHT_LIMIT - 1));
    assert!(!net.set_weight(0, 1, i64::MIN));
    assert_eq!(net.weight(0, 1), before);
    assert!(net.set_weight(0, 1, WEIGHT_LIMIT));
    assert_eq!(net.weight(0, 1), Some(WEIGHT_LIMIT));
    assert!(net.set_weight(0, 1, -WEIGHT_LIMIT));
    assert_eq!(net.weight(0, 1), Some(-WEIGHT_LIMIT));
}

#[test]
fn a_weight_at_the_limit_leaves_no_room_to_fit() {
    let mut net = Network::new(&[1, 1]).unwrap();
    assert!(net.set_weight(0, 1, WEIGHT_LIMIT - 20_000));
    assert!(net.can_fit());
    assert!(net.set_weight(0, 1, WEIGHT_LIMIT - 19_999));
    assert!(!net.can_fit());
    assert!(net.set_weight(0, 1, -WEIGHT_LIMIT + 40_000));
    assert!(net.can_fit());
    assert!(net.set_weight(0, 1, -WEIGHT_LIMIT + 39_999));
    assert!(!net.can_fit());
}
