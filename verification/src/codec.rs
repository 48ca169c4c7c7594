//! Identifier codec: neuron identifiers and their packed numeric form.
//!
//! A neuron identifier is a pair `(seed, pos)`.  `seed` names one of up to
//! 256 independent growth trees (one per input or output channel); `pos` is
//! the heap-style index of the neuron inside a perfect binary tree rooted at
//! position 0 (a node at position `p` has children at `2p + 1` and
//! `2p + 2`).
//!
//! A synapse stores its destination inline as the packed form produced by
//! [`encode_id`]: the seed in the high byte, the position in the low byte
//! (big-endian order, fixed project-wide).  [`decode_id`] is its exact
//! inverse over the whole `u16` range.

use vstd::prelude::*;

verus! {

/// Identifier of one neuron: the growth tree it belongs to and its
/// heap-style position inside that tree.
#[derive(Clone, Copy, Debug, PartialEq, Eq, Structural)]
pub struct NeuronId {
    /// Index of the growth tree (input/output channel) the neuron belongs to.
    pub seed: u8,
    /// Heap index of the neuron inside its tree; the root is position 0.
    pub pos: u8,
}

impl NeuronId {
    /// Builds an identifier from its two components.
    pub fn new(seed: u8, pos: u8) -> (r: NeuronId)
        ensures
            r == (NeuronId { seed, pos }),
    {
        NeuronId { seed, pos }
    }
}

/// Packed numeric form of an identifier: seed in the high byte, position in
/// the low byte.
pub open spec fn spec_encode_id(id: NeuronId) -> u16 {
    (id.seed * 256 + id.pos) as u16
}

/// Identifier recovered from its packed numeric form.
pub open spec fn spec_decode_id(v: u16) -> NeuronId {
    NeuronId { seed: (v / 256) as u8, pos: (v % 256) as u8 }
}

/// Packs an identifier into the numeric form used to store a synapse's
/// destination inside a gene record.
#[verifier::when_used_as_spec(spec_encode_id)]
pub fn encode_id(id: NeuronId) -> (r: u16)
    ensures
        r == spec_encode_id(id),
{
    (id.seed as u16) * 256 + (id.pos as u16)
}

/// Unpacks the numeric form back into the identifier it was produced from.
#[verifier::when_used_as_spec(spec_decode_id)]
pub fn decode_id(v: u16) -> (r: NeuronId)
    ensures
        r == spec_decode_id(v),
{
    NeuronId { seed: (v / 256) as u8, pos: (v % 256) as u8 }
}

/// Law: decoding is the exact inverse of encoding, for every representable
/// identifier.
pub proof fn lemma_codec_round_trip(id: NeuronId)
    ensures
        spec_decode_id(spec_encode_id(id)) == id,
{
}

/// Law: encoding is injective, so the packed form of an identifier is
/// unambiguous.
pub proof fn lemma_encode_injective(a: NeuronId, b: NeuronId)
    requires
        spec_encode_id(a) == spec_encode_id(b),
    ensures
        a == b,
{
    lemma_codec_round_trip(a);
    lemma_codec_round_trip(b);
}

} // verus!
