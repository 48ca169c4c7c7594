//! Gene records: the tagged entities a genome is made of.
//!
//! A gene is either a neuron (input, hidden or output) or a synapse.  Neuron
//! genes carry a growth counter: the number of tree children already
//! attached to them; a neuron stops being a growth candidate once that
//! counter reaches 2.  Synapse genes carry their source identifier, their
//! destination in the packed form of [`crate::codec::encode_id`], an
//! enabled/disabled status, and a weight payload.
//!
//! Weight and bias payloads are opaque 32-bit values owned by the embedding
//! application; the structural engine only defaults them to zero and carries
//! them along.

use vstd::prelude::*;

use crate::codec::NeuronId;
use crate::codec::spec_encode_id;

verus! {

/// Whether a synapse currently conducts or is switched off.
#[derive(Clone, Copy, Debug, PartialEq, Eq, Structural)]
pub enum SynapseStatus {
    Enabled,
    Disabled,
}

impl SynapseStatus {
    /// Reads a status from its stored byte form; 10 is enabled, 11 is
    /// disabled, anything else is no status.
    pub fn from_u8(value: u8) -> (r: Option<Self>)
        ensures
            r == (if value == 10 {
                Some(SynapseStatus::Enabled)
            } else if value == 11 {
                Some(SynapseStatus::Disabled)
            } else {
                None::<SynapseStatus>
            }),
    {
        match value {
            10 => Some(SynapseStatus::Enabled),
            11 => Some(SynapseStatus::Disabled),
            _ => None,
        }
    }

    /// Stored byte form of the status.
    pub fn as_u8(&self) -> (r: u8)
        ensures
            r == (if self is Enabled {
                10u8
            } else {
                11u8
            }),
    {
        match self {
            SynapseStatus::Enabled => 10,
            SynapseStatus::Disabled => 11,
        }
    }
}

/// The four kinds of gene record, in their stored byte form.
#[derive(Clone, Copy, Debug, PartialEq, Eq, Structural)]
pub enum GeneType {
    Input,
    Hidden,
    Output,
    Synapse,
}

impl GeneType {
    /// Reads a gene kind from its stored byte form.
    pub fn from_u8(value: u8) -> (r: Option<Self>)
        ensures
            r == (if value == 1 {
                Some(GeneType::Input)
            } else if value == 2 {
                Some(GeneType::Hidden)
            } else if value == 3 {
                Some(GeneType::Output)
            } else if value == 10 {
                Some(GeneType::Synapse)
            } else {
                None::<GeneType>
            }),
    {
        match value {
            1 => Some(GeneType::Input),
            2 => Some(GeneType::Hidden),
            3 => Some(GeneType::Output),
            10 => Some(GeneType::Synapse),
            _ => None,
        }
    }

    /// Stored byte form of the gene kind.
    pub fn as_u8(&self) -> (r: u8)
        ensures
            r == (match self {
                GeneType::Input => 1u8,
                GeneType::Hidden => 2u8,
                GeneType::Output => 3u8,
                GeneType::Synapse => 10u8,
            }),
    {
        match self {
            GeneType::Input => 1,
            GeneType::Hidden => 2,
            GeneType::Output => 3,
            GeneType::Synapse => 10,
        }
    }
}

/// One record of a genome: a neuron of one of the three roles, or a synapse.
#[derive(Clone, Copy, Debug, PartialEq, Eq, Structural)]
pub enum Gene {
    /// An input-channel neuron: the root of one growth tree, never removed.
    Input { id: NeuronId, children: u8, bias_bits: u32 },
    /// A grown neuron, child of an input or hidden neuron; removable when
    /// no synapse touches it any more.
    Hidden { id: NeuronId, children: u8, bias_bits: u32 },
    /// An output-channel neuron: may receive synapses from any height,
    /// never sources one, never removed.
    Output { id: NeuronId, children: u8, bias_bits: u32 },
    /// A directed edge from `source` to the neuron whose packed identifier
    /// is `dest`.
    Synapse { source: NeuronId, dest: u16, status: SynapseStatus, weight_bits: u32 },
}

impl Gene {
    /// True of the three neuron kinds.
    pub open spec fn is_neuron(self) -> bool {
        !(self is Synapse)
    }

    /// The identifier a gene sorts under: a neuron's own identifier, a
    /// synapse's source identifier.
    pub open spec fn own_id(self) -> NeuronId {
        match self {
            Gene::Input { id, .. } => id,
            Gene::Hidden { id, .. } => id,
            Gene::Output { id, .. } => id,
            Gene::Synapse { source, .. } => source,
        }
    }

    /// Packed form of [`Gene::own_id`]; the genome is kept ordered by this
    /// key.
    pub open spec fn sort_key(self) -> u16 {
        spec_encode_id(self.own_id())
    }

    /// Growth counter of a neuron gene.
    pub open spec fn child_count(self) -> u8 {
        match self {
            Gene::Input { children, .. } => children,
            Gene::Hidden { children, .. } => children,
            Gene::Output { children, .. } => children,
            Gene::Synapse { .. } => 0,
        }
    }

    /// Packed destination of a synapse gene.
    pub open spec fn dest_enc(self) -> u16 {
        match self {
            Gene::Synapse { dest, .. } => dest,
            _ => 0,
        }
    }

    /// Status of a synapse gene.
    pub open spec fn syn_status(self) -> SynapseStatus {
        match self {
            Gene::Synapse { status, .. } => status,
            _ => SynapseStatus::Enabled,
        }
    }

    /// The same neuron gene with its growth counter replaced.
    pub open spec fn with_children(self, n: u8) -> Gene {
        match self {
            Gene::Input { id, children, bias_bits } => Gene::Input { id, children: n, bias_bits },
            Gene::Hidden { id, children, bias_bits
                } => Gene::Hidden { id, children: n, bias_bits },
            Gene::Output { id, children, bias_bits
                } => Gene::Output { id, children: n, bias_bits },
            Gene::Synapse { .. } => self,
        }
    }

    /// The same synapse gene with its status replaced.
    pub open spec fn with_status(self, st: SynapseStatus) -> Gene {
        match self {
            Gene::Synapse { source, dest, status, weight_bits
                } => Gene::Synapse { source, dest, status: st, weight_bits },
            _ => self,
        }
    }

    /// Kind of the gene, as the closed [`GeneType`] set.
    pub fn gene_type(&self) -> (r: GeneType)
        ensures
            r == (match self {
                Gene::Input { .. } => GeneType::Input,
                Gene::Hidden { .. } => GeneType::Hidden,
                Gene::Output { .. } => GeneType::Output,
                Gene::Synapse { .. } => GeneType::Synapse,
            }),
    {
        match self {
            Gene::Input { .. } => GeneType::Input,
            Gene::Hidden { .. } => GeneType::Hidden,
            Gene::Output { .. } => GeneType::Output,
            Gene::Synapse { .. } => GeneType::Synapse,
        }
    }

    /// Identifier the gene sorts under, as executable code.
    pub fn key_id(&self) -> (r: NeuronId)
        ensures
            r == self.own_id(),
    {
        match self {
            Gene::Input { id, .. } => *id,
            Gene::Hidden { id, .. } => *id,
            Gene::Output { id, .. } => *id,
            Gene::Synapse { source, .. } => *source,
        }
    }
}

} // verus!
