use monkeybrain::{data, Network, NeuronState};

const PATTERNS: [([u8; 4], [u8; 1]); 8] = [
    ([1, 0, 0, 0], [1]),
    ([0, 1, 0, 0], [1]),
    ([0, 0, 1, 0], [1]),
    ([0, 0, 0, 1], [1]),
    ([1, 1, 0, 0], [0]),
    ([0, 1, 1, 0], [0]),
    ([0, 0, 1, 1], [0]),
    ([1, 1, 1, 1], [0]),
];

fn seeded() -> Network {
    let mut net = Network::new(&[4, 1, 1]).unwrap();
    let weights = [
        (0, 4, 300_000),
        (1, 4, -200_000),
        (2, 4, 500_000),
        (3, 4, 100_000),
        (0, 5, 400_000),
        (1, 5, -300_000),
        (2, 5, 200_000),
        (3, 5, -100_000),
        (4, 5, 600_000),
    ];
    for (s, d, weight) in weights {
        assert!(net.set_weight(s, d, weight));
    }
    net
}

fn weights_of(net: &Network) -> Vec<i64> {
    let mut all = Vec::new();
    for d in 0..net.neuron_count() {
        for s in 0..net.neuron_count() {
            if let Some(weight) = net.weight(s, d) {
                all.push(weight);
            }
        }
    }
    all
}

#[test]
fn one_epoch_moves_the_weights_as_the_rule_says() {
    let mut net = seeded();
    for (input, expected) in PATTERNS {
        net.calc(&data(&input)).unwrap();
        assert!(net.can_fit());
        assert_eq!(net.fit(&data(&expected)), Ok(()));
    }
    assert_eq!(
        weights_of(&net),
        vec![280_000, -200_000, 420_000, 40_000, 380_000, -300_000, 120_000, -120_000, 560_000]
    );
    let outputs: Vec<_> =
        PATTERNS.iter().map(|(input, _)| net.calc(&data(input)).unwrap()[0]).collect();
    assert_eq!(outputs, data(&[0, 0, 0, 0, 0, 0, 0, 1]));
}

#[test]
fn training_beats_chance_on_the_one_bit_patterns() {
    let mut net = seeded();
    for _ in 0..1000 {
        for (input, expected) in PATTERNS {
            net.calc(&data(&input)).unwrap();
            assert!(net.can_fit());
            assert_eq!(net.fit(&data(&expected)), Ok(()));
        }
    }
    let mut right = 0;
    for (input, expected) in PATTERNS {
        let output = net.calc(&data(&input)).unwrap();
        if output == data(&expected) {
            right += 1;
        }
    }
    assert!(right * 2 > PATTERNS.len());
    assert_eq!(
        weights_of(&net),
        vec![340_000, 180_000, 380_000, 120_000, 500_000, 500_000, 500_000, 500_000, -1_520_000]
    );
}

#[test]
fn training_from_random_weights_keeps_the_network_sound() {
    let mut net = Network::new(&[4, 1, 1]).unwrap();
    for _ in 0..1000 {
        for (input, expected) in PATTERNS {
            let output = net.calc(&data(&input)).unwrap();
            assert_eq!(output.len(), 1);
            assert!(net.can_fit());
            assert_eq!(net.fit(&data(&expected)), Ok(()));
        }
    }
    assert_eq!(net.layer_sizes(), vec![4, 1, 1]);
    for d in 0..net.neuron_count() {
        for s in 0..net.neuron_count() {
            assert_eq!(net.weight(s, d).is_some(), (d == 4 && s < 4) || (d == 5 && s < 5));
            if let Some(weight) = net.weight(s, d) {
                // 8000 steps move a weight by 0.04 at most each.
                assert!(weight.abs() <= 1_000_000 + 8000 * 40_000);
                assert_eq!(net.punish_back(s, d), Some(false));
            }
        }
    }
    let first = net.calc(&data(&[1, 0, 0, 1])).unwrap();
    let second = net.calc(&data(&[1, 0, 0, 1])).unwrap();
    assert_eq!(first, second);
    assert!(first[0] == NeuronState::On || first[0] == NeuronState::Off);
}
