//! The phenotype view of a genome: neuron and synapse lookup records.
//!
//! A network owns a genome plus two lookup maps built from it, in the
//! form a forward-pass evaluator consumes.  Building the maps decodes each
//! synapse's stored destination; a destination that names no present
//! neuron indicates upstream corruption and is reported as a hard error,
//! since the genome invariants guarantee the mutation engine alone can
//! never produce one.

use std::collections::HashMap;

use vstd::prelude::*;

use crate::codec::NeuronId;
use crate::codec::decode_id;
use crate::codec::encode_id;
use crate::codec::spec_decode_id;
use crate::codec::spec_encode_id;
use crate::gene::Gene;
use crate::gene::GeneType;
use crate::gene::SynapseStatus;
use crate::genome::Genome;
use crate::invariants::has_neuron;

verus! {

broadcast use vstd::std_specs::hash::group_hash_axioms;

/// One neuron record of the phenotype.
#[derive(Clone, Copy, Debug, PartialEq, Eq, Structural)]
pub struct Neuron {
    /// Identifier of the neuron.
    pub id: NeuronId,
    /// Role of the neuron.
    pub kind: GeneType,
    /// Growth counter carried over from the gene record.
    pub children: u8,
    /// Opaque bias payload carried over from the gene record.
    pub bias_bits: u32,
}

/// One synapse record of the phenotype, keyed by its endpoints.
#[derive(Clone, Copy, Debug, PartialEq, Eq, Structural)]
pub struct Synapse {
    /// Source neuron identifier.
    pub id: NeuronId,
    /// Decoded destination neuron identifier.
    pub destination: NeuronId,
    /// Whether the synapse conducts.
    pub status: SynapseStatus,
    /// Opaque weight payload carried over from the gene record.
    pub weight_bits: u32,
}

/// Parsing failure: a synapse's stored destination decodes to an
/// identifier that no neuron gene carries.
#[derive(Clone, Copy, Debug, PartialEq, Eq, Structural)]
pub enum ParseError {
    MalformedDestination { source: NeuronId, destination: NeuronId },
}

/// The neuron record a neuron gene parses to.
pub open spec fn neuron_record(g: Gene) -> Neuron {
    Neuron {
        id: g.own_id(),
        kind: match g {
            Gene::Input { .. } => GeneType::Input,
            Gene::Hidden { .. } => GeneType::Hidden,
            Gene::Output { .. } => GeneType::Output,
            Gene::Synapse { .. } => GeneType::Synapse,
        },
        children: g.child_count(),
        bias_bits: match g {
            Gene::Input { bias_bits, .. } => bias_bits,
            Gene::Hidden { bias_bits, .. } => bias_bits,
            Gene::Output { bias_bits, .. } => bias_bits,
            Gene::Synapse { .. } => 0,
        },
    }
}

/// The synapse record a synapse gene parses to.
pub open spec fn synapse_record(g: Gene) -> Synapse {
    Synapse {
        id: g.own_id(),
        destination: spec_decode_id(g.dest_enc()),
        status: g.syn_status(),
        weight_bits: match g {
            Gene::Synapse { weight_bits, .. } => weight_bits,
            _ => 0,
        },
    }
}

/// The key a synapse record is stored under: both packed endpoint
/// identifiers side by side.
pub open spec fn spec_edge_key(src: u16, dst: u16) -> u32 {
    (src * 65536 + dst) as u32
}

/// Main network structure: the genome blueprint plus the lookup maps the
/// evaluator reads.
pub struct Network {
    /// The genome the maps were parsed from.
    pub genome: Genome,
    /// Neuron records keyed by their packed identifier.
    pub neurons: HashMap<u16, Neuron>,
    /// Synapse records keyed by their packed endpoint pair.
    pub synapses: HashMap<u32, Synapse>,
}

impl Network {
    /// Creates a network around a fresh genome with the given channel
    /// counts; the lookup maps start empty until the genome is parsed.
    pub fn new(inputs: u16, outputs: u16) -> (r: Network)
        requires
            inputs + outputs <= 256,
        ensures
            r.genome@.len() == inputs + outputs,
            r.genome.wf(),
            r.neurons@ == Map::<u16, Neuron>::empty(),
            r.synapses@ == Map::<u32, Synapse>::empty(),
    {
        Network {
            genome: Genome::new(inputs, outputs),
            neurons: HashMap::new(),
            synapses: HashMap::new(),
        }
    }

    /// Partitions the genome's genes into the two lookup maps, decoding
    /// each synapse's destination; fails on the first synapse whose
    /// decoded destination matches no neuron gene.
    pub fn parse_genome(&mut self) -> (r: Result<(), ParseError>)
        ensures
            final(self).genome == old(self).genome,
            r is Ok <==> (forall|g: Gene|
                #[trigger] old(self).genome@.contains(g) && g is Synapse ==> has_neuron(
                    old(self).genome@,
                    spec_decode_id(g.dest_enc()),
                )),
            r is Ok ==> (forall|g: Gene|
                #[trigger] old(self).genome@.contains(g) && g.is_neuron() ==> final(self).neurons@.contains_key(spec_encode_id(g.own_id()))),
            r is Ok ==> (forall|k: u16|
                final(self).neurons@.contains_key(k) ==> exists|g: Gene|
                    #[trigger] old(self).genome@.contains(g) && g.is_neuron() && spec_encode_id(
                        g.own_id(),
                    ) == k && final(self).neurons@[k] == neuron_record(g)),
            r is Ok ==> (forall|g: Gene|
                #[trigger] old(self).genome@.contains(g) && g is Synapse ==> final(self).synapses@.contains_key(
                    spec_edge_key(spec_encode_id(g.own_id()), g.dest_enc()),
                )),
            r is Ok ==> (forall|k: u32|
                final(self).synapses@.contains_key(k) ==> exists|g: Gene|
                    #[trigger] old(self).genome@.contains(g) && g is Synapse && spec_edge_key(
                        spec_encode_id(g.own_id()),
                        g.dest_enc(),
                    ) == k && final(self).synapses@[k] == synapse_record(g)),
    {
        let mut neurons: HashMap<u16, Neuron> = HashMap::new();
        let mut synapses: HashMap<u32, Synapse> = HashMap::new();
        let ghost s = self.genome@;
        let n = self.genome.genes().len();
        let mut i: usize = 0;
        while i < n
            invariant
                n == s.len(),
                i <= n,
                s == self.genome@,
                forall|j: int|
                    0 <= j < i && #[trigger] s[j] is Synapse ==> has_neuron(
                        s,
                        spec_decode_id(s[j].dest_enc()),
                    ),
                forall|j: int|
                    0 <= j < i && (#[trigger] s[j]).is_neuron() ==> neurons@.contains_key(
                        spec_encode_id(s[j].own_id()),
                    ),
                forall|k: u16|
                    neurons@.contains_key(k) ==> exists|g: Gene|
                        #[trigger] s.contains(g) && g.is_neuron() && spec_encode_id(g.own_id())
                            == k && neurons@[k] == neuron_record(g),
                forall|j: int|
                    0 <= j < i && #[trigger] s[j] is Synapse ==> synapses@.contains_key(
                        spec_edge_key(spec_encode_id(s[j].own_id()), s[j].dest_enc()),
                    ),
                forall|k: u32|
                    synapses@.contains_key(k) ==> exists|g: Gene|
                        #[trigger] s.contains(g) && g is Synapse && spec_edge_key(
                            spec_encode_id(g.own_id()),
                            g.dest_enc(),
                        ) == k && synapses@[k] == synapse_record(g),
            decreases n - i,
        {
            let g = self.genome.genes()[i];
            proof {
                assert(s.contains(s[i as int]));
            }
            match g {
                Gene::Synapse { source, dest, status, weight_bits } => {
                    let destination = decode_id(dest);
                    match self.genome.find_neuron(destination) {
                        None => {
                            proof {
                                crate::codec::lemma_codec_round_trip(destination);
                            }
                            return Err(
                                ParseError::MalformedDestination { source, destination },
                            );
                        },
                        Some(ni) => {
                            proof {
                                assert(s.contains(s[ni as int]));
                                assert(has_neuron(s, destination));
                            }
                        },
                    }
                    let key: u32 = (encode_id(source) as u32) * 65536 + (dest as u32);
                    let record = Synapse { id: source, destination, status, weight_bits };
                    let ghost m0 = synapses@;
                    synapses.insert(key, record);
                    proof {
                        assert(record == synapse_record(s[i as int]));
                        assert(key == spec_edge_key(
                            spec_encode_id(s[i as int].own_id()),
                            s[i as int].dest_enc(),
                        ));
                        assert forall|k: u32| synapses@.contains_key(k) implies exists|g2: Gene|
                            #[trigger] s.contains(g2) && g2 is Synapse && spec_edge_key(
                                spec_encode_id(g2.own_id()),
                                g2.dest_enc(),
                            ) == k && synapses@[k] == synapse_record(g2) by {
                            if k != key {
                                assert(m0.contains_key(k));
                            }
                        }
                    }
                },
                _ => {
                    let key = encode_id(g.key_id());
                    let record = Neuron { id: g.key_id(), kind: g.gene_type(), children: match g {
                        Gene::Input { children, .. } => children,
                        Gene::Hidden { children, .. } => children,
                        Gene::Output { children, .. } => children,
                        Gene::Synapse { .. } => 0,
                    }, bias_bits: match g {
                        Gene::Input { bias_bits, .. } => bias_bits,
                        Gene::Hidden { bias_bits, .. } => bias_bits,
                        Gene::Output { bias_bits, .. } => bias_bits,
                        Gene::Synapse { .. } => 0,
                    } };
                    let ghost m0 = neurons@;
                    neurons.insert(key, record);
                    proof {
                        assert(record == neuron_record(s[i as int]));
                        assert forall|k: u16| neurons@.contains_key(k) implies exists|g2: Gene|
                            #[trigger] s.contains(g2) && g2.is_neuron() && spec_encode_id(
                                g2.own_id(),
                            ) == k && neurons@[k] == neuron_record(g2) by {
                            if k != key {
                                assert(m0.contains_key(k));
                            }
                        }
                    }
                },
            }
            i = i + 1;
        }
        self.neurons = neurons;
        self.synapses = synapses;
        proof {
            assert forall|g: Gene| #[trigger] s.contains(g) && g is Synapse implies has_neuron(
                s,
                spec_decode_id(g.dest_enc()),
            ) by {
                let j = choose|j: int| 0 <= j < s.len() && s[j] == g;
            }
            assert forall|g: Gene| #[trigger] s.contains(g) && g.is_neuron() implies
                self.neurons@.contains_key(spec_encode_id(g.own_id())) by {
                let j = choose|j: int| 0 <= j < s.len() && s[j] == g;
            }
            assert forall|g: Gene| #[trigger] s.contains(g) && g is Synapse implies
                self.synapses@.contains_key(
                spec_edge_key(spec_encode_id(g.own_id()), g.dest_enc()),
            ) by {
                let j = choose|j: int| 0 <= j < s.len() && s[j] == g;
            }
        }
        Ok(())
    }
}

} // verus!
