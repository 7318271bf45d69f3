use monkeybrain::weight::{
    exceeds_share, NEURON_SENSITIVITY, PUNISH_BACK_DENOMINATOR, PUNISH_BACK_NUMERATOR,
    WEIGHT_DECREASE_RATE, WEIGHT_INCREASE_RATE, WEIGHT_LIMIT, WEIGHT_ONE,
};
use monkeybrain::network::{Link, Neuron};
use monkeybrain::{data, NeuronState};

#[test]
fn data_reads_ones_as_on_and_zeros_as_off() {
    assert_eq!(
        data(&[1, 0, 0, 1]),
        vec![NeuronState::On, NeuronState::Off, NeuronState::Off, NeuronState::On]
    );
}

#[test]
fn data_of_nothing_is_empty() {
    assert_eq!(data(&[]), Vec::<NeuronState>::new());
}

#[test]
fn data_keeps_the_length() {
    let bits = [0u8, 1, 1, 0, 1, 0, 0];
    assert_eq!(data(&bits).len(), bits.len());
}

#[test]
fn on_passes_the_weight() {
    assert_eq!(NeuronState::On.mul(730_000), 730_000);
    assert_eq!(NeuronState::On.mul(-5), -5);
    assert_eq!(NeuronState::On.mul(0), 0);
}

#[test]
fn off_passes_nothing() {
    assert_eq!(NeuronState::Off.mul(730_000), 0);
    assert_eq!(NeuronState::Off.mul(-5), 0);
    assert_eq!(NeuronState::Off.mul(i64::MAX), 0);
}

#[test]
fn constants_are_multiples_of_the_unit() {
    assert_eq!(WEIGHT_ONE, 1_000_000);
    assert_eq!(NEURON_SENSITIVITY * 2, WEIGHT_ONE);
    assert_eq!(WEIGHT_INCREASE_RATE * 50, WEIGHT_ONE);
    assert_eq!(WEIGHT_DECREASE_RATE * 50, WEIGHT_ONE);
    assert_eq!(PUNISH_BACK_NUMERATOR, 4);
    assert_eq!(PUNISH_BACK_DENOMINATOR, 5);
    assert_eq!(WEIGHT_LIMIT, 1_000_000_000_000_000_000);
}

#[test]
fn share_of_exactly_four_fifths_is_not_above() {
    assert!(!exceeds_share(800_000, 1_000_000));
    assert!(!exceeds_share(4, 5));
}

#[test]
fn share_just_above_four_fifths_is_above() {
    assert!(exceeds_share(800_001, 1_000_000));
    assert!(exceeds_share(1_000_000, 1_000_000));
    assert!(exceeds_share(5, 5));
}

#[test]
fn share_below_four_fifths_is_not_above() {
    assert!(!exceeds_share(0, 1_000_000));
    assert!(!exceeds_share(799_999, 1_000_000));
    assert!(!exceeds_share(-1_000_000, 1_000_000));
}

#[test]
fn share_of_a_negative_whole_compares_the_ratio() {
    // -9 / -10 is 0.9, -7 / -10 is 0.7, 9 / -10 is negative.
    assert!(exceeds_share(-9, -10));
    assert!(!exceeds_share(-8, -10));
    assert!(!exceeds_share(-7, -10));
    assert!(!exceeds_share(9, -10));
}

#[test]
fn share_of_a_zero_whole_is_never_above() {
    assert!(!exceeds_share(0, 0));
    assert!(!exceeds_share(1_000_000, 0));
    assert!(!exceeds_share(-1_000_000, 0));
}

#[test]
fn share_is_decided_at_the_largest_sums() {
    let largest: i128 = 18_446_744_073_709_551_615_000_000_000_000_000_000;
    assert!(exceeds_share(largest, largest));
    assert!(!exceeds_share(-largest, largest));
    assert!(exceeds_share(-largest, -largest));
    assert!(!exceeds_share(largest, -largest));
}

#[test]
fn a_new_link_is_not_blamed() {
    let link = Link::new(-250_000, 3, 7);
    assert_eq!(link.weight, -250_000);
    assert_eq!(link.source, 3);
    assert_eq!(link.dest, 7);
    assert!(!link.punish_back);
}

#[test]
fn a_default_neuron_is_off_and_unlinked() {
    let neuron = Neuron::default();
    assert_eq!(neuron.state, NeuronState::Off);
    assert!(neuron.back.is_empty());
    assert!(neuron.forward.is_empty());
}
