//! A small feed-forward network of binary neurons that learns by a local,
//! threshold-driven blame rule instead of gradients.
//!
//! Weights are fixed-point numbers, so every sum, comparison and weight
//! update is exact; see [`weight`] for the scale.

pub mod error;
pub mod laws;
pub mod model;
pub mod network;
pub mod rng;
pub mod state;
pub mod sweep;
pub mod weight;
pub mod wiring;

pub use error::NetworkError;
pub use network::Network;
pub use state::{data, NeuronState};
