use aster_ml::Gene;
use aster_ml::GeneType;
use aster_ml::NeuronId;
use aster_ml::SynapseStatus;
use aster_ml::encode_id;
use aster_ml::network::Network;
use rand::SeedableRng;
use rand::rngs::StdRng;

fn nid(seed: u8, pos: u8) -> NeuronId {
    NeuronId { seed, pos }
}

fn edge_key(src: NeuronId, dst: NeuronId) -> u32 {
    (encode_id(src) as u32) * 65536 + (encode_id(dst) as u32)
}

#[test]
fn new_network_has_empty_maps() {
    let net = Network::new(2, 2);
    assert_eq!(net.genome.genes().len(), 4);
    assert!(net.neurons.is_empty());
    assert!(net.synapses.is_empty());
}

#[test]
fn parse_partitions_neurons_and_synapses() {
    let mut net = Network::new(2, 2);
    assert_eq!(net.genome.grow_child(nid(0, 0)), Some(nid(0, 1)));
    assert!(net.genome.add_synapse(nid(0, 1), nid(255, 0)));
    assert_eq!(net.parse_genome(), Ok(()));

    assert_eq!(net.neurons.len(), 5);
    assert_eq!(net.synapses.len(), 2);

    let root = net.neurons.get(&encode_id(nid(0, 0))).expect("input present");
    assert_eq!(root.id, nid(0, 0));
    assert_eq!(root.kind, GeneType::Input);
    assert_eq!(root.children, 1);

    let hidden = net.neurons.get(&encode_id(nid(0, 1))).expect("hidden present");
    assert_eq!(hidden.kind, GeneType::Hidden);
    assert_eq!(hidden.children, 0);

    let out = net.neurons.get(&encode_id(nid(255, 0))).expect("output present");
    assert_eq!(out.kind, GeneType::Output);

    let grown_edge = net.synapses.get(&edge_key(nid(0, 0), nid(0, 1))).expect("growth edge");
    assert_eq!(grown_edge.id, nid(0, 0));
    assert_eq!(grown_edge.destination, nid(0, 1));
    assert_eq!(grown_edge.status, SynapseStatus::Enabled);
    assert_eq!(grown_edge.weight_bits, 0);

    let out_edge = net.synapses.get(&edge_key(nid(0, 1), nid(255, 0))).expect("output edge");
    assert_eq!(out_edge.destination, nid(255, 0));
}

#[test]
fn parse_tracks_disabled_status() {
    let mut net = Network::new(2, 2);
    assert!(net.genome.add_synapse(nid(0, 0), nid(254, 0)));
    assert!(net.genome.set_synapse_status(nid(0, 0), nid(254, 0), SynapseStatus::Disabled));
    assert_eq!(net.parse_genome(), Ok(()));
    let edge = net.synapses.get(&edge_key(nid(0, 0), nid(254, 0))).expect("edge present");
    assert_eq!(edge.status, SynapseStatus::Disabled);
}

#[test]
fn parse_after_random_evolution_round_trips_every_gene() {
    let mut net = Network::new(2, 2);
    let mut rng = StdRng::seed_from_u64(8);
    for _ in 0..40 {
        net.genome.rand_connected_child(&mut rng);
        net.genome.random_synapse(&mut rng);
    }
    assert_eq!(net.parse_genome(), Ok(()));
    let mut neuron_count = 0;
    let mut synapse_count = 0;
    for gene in net.genome.genes().iter() {
        match gene {
            Gene::Synapse { source, dest, .. } => {
                synapse_count += 1;
                let key = (encode_id(*source) as u32) * 65536 + (*dest as u32);
                let record = net.synapses.get(&key).expect("every synapse parsed");
                assert_eq!(record.id, *source);
                assert_eq!(encode_id(record.destination), *dest);
            }
            Gene::Input { id, .. } | Gene::Hidden { id, .. } | Gene::Output { id, .. } => {
                neuron_count += 1;
                let record = net.neurons.get(&encode_id(*id)).expect("every neuron parsed");
                assert_eq!(record.id, *id);
            }
        }
    }
    assert_eq!(net.neurons.len(), neuron_count);
    assert_eq!(net.synapses.len(), synapse_count);
}
