//! Genome encoding and structural mutation engine for feed-forward
//! neuroevolution.
//!
//! A genome is a flat, ordered collection of gene records describing the
//! neurons of a network and the synapses between them.  Every neuron sits at
//! a deterministic position inside a per-seed binary growth tree; synapses
//! are only ever created from a lower tree height towards a strictly greater
//! one (or towards an output neuron), which keeps the encoded network
//! acyclic.  The mutation operators grow, prune and toggle parts of this
//! encoding while preserving those invariants.

pub mod codec;
pub mod gene;
pub mod genome;
pub mod geometry;
pub mod invariants;
pub mod laws;
pub mod network;
pub mod rng;

pub use codec::NeuronId;
pub use codec::decode_id;
pub use codec::encode_id;
pub use gene::Gene;
pub use gene::GeneType;
pub use gene::SynapseStatus;
pub use genome::Genome;
pub use geometry::get_inorder_position;
pub use geometry::get_neuron_height;
