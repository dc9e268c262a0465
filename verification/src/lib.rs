//! A byte-level BPE tokenizer, and the integer parts of a small neural-network
//! toolkit: reproducible weight initialisation and the choice of activations.
use vstd::prelude::*;

pub mod activation;
pub mod bpe;
pub mod chunks;
pub mod ids;
pub mod pairs;
pub mod parse;
pub mod render;
pub mod rng;
pub mod unicode;

pub use activation::{layer_activations, Activation};
pub use bpe::Bpe;
pub use chunks::split_chunks;
pub use ids::{ids_from_bytes, ids_to_bytes};
pub use rng::Rng;

verus! {

} // verus!
