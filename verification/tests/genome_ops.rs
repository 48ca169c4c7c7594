use aster_ml::Gene;
use aster_ml::GeneType;
use aster_ml::Genome;
use aster_ml::NeuronId;
use aster_ml::SynapseStatus;
use aster_ml::decode_id;
use aster_ml::encode_id;
use aster_ml::get_neuron_height;
use rand::SeedableRng;
use rand::rngs::StdRng;

fn nid(seed: u8, pos: u8) -> NeuronId {
    NeuronId { seed, pos }
}

fn neuron_children(g: &Genome, id: NeuronId) -> Option<u8> {
    for gene in g.genes().iter() {
        match gene {
            Gene::Input { id: gid, children, .. }
            | Gene::Hidden { id: gid, children, .. }
            | Gene::Output { id: gid, children, .. } => {
                if *gid == id {
                    return Some(*children);
                }
            }
            Gene::Synapse { .. } => {}
        }
    }
    None
}

fn synapse_status(g: &Genome, from: NeuronId, to: NeuronId) -> Option<SynapseStatus> {
    let key = encode_id(to);
    for gene in g.genes().iter() {
        if let Gene::Synapse { source, dest, status, .. } = gene {
            if *source == from && *dest == key {
                return Some(*status);
            }
        }
    }
    None
}

fn check_structural_invariants(g: &Genome) {
    let genes = g.genes();
    let mut neuron_ids: Vec<NeuronId> = Vec::new();
    let mut edges: Vec<(NeuronId, NeuronId)> = Vec::new();
    for gene in genes.iter() {
        match gene {
            Gene::Input { id, .. } | Gene::Hidden { id, .. } | Gene::Output { id, .. } => {
                neuron_ids.push(*id);
            }
            Gene::Synapse { source, dest, .. } => {
                edges.push((*source, decode_id(*dest)));
            }
        }
    }
    // Unique neuron identifiers.
    for a in 0..neuron_ids.len() {
        for b in (a + 1)..neuron_ids.len() {
            assert_ne!(neuron_ids[a], neuron_ids[b], "duplicate neuron id");
        }
    }
    // Unique edges, no self-loops, acyclicity via the height rule.
    for a in 0..edges.len() {
        for b in (a + 1)..edges.len() {
            assert_ne!(edges[a], edges[b], "duplicate edge");
        }
        let (src, dst) = edges[a];
        assert_ne!(src, dst, "self loop");
        assert!(neuron_ids.contains(&src), "dangling source");
        assert!(neuron_ids.contains(&dst), "dangling destination");
        let dst_is_output = g.get_gene_type(dst) == Some(GeneType::Output);
        assert!(
            dst_is_output || get_neuron_height(dst.pos) > get_neuron_height(src.pos),
            "height rule violated"
        );
    }
    // Growth counters match the hidden children actually present.
    for id in neuron_ids.iter() {
        let mut present = 0u8;
        for cpos in [2 * (id.pos as u16) + 1, 2 * (id.pos as u16) + 2] {
            if cpos <= 255
                && neuron_ids.contains(&nid(id.seed, cpos as u8))
                && g.get_gene_type(nid(id.seed, cpos as u8)) == Some(GeneType::Hidden)
            {
                present += 1;
            }
        }
        assert_eq!(neuron_children(g, *id), Some(present), "growth counter out of sync");
    }
    // Every hidden neuron keeps at least one synapse.
    for id in neuron_ids.iter() {
        if g.get_gene_type(*id) == Some(GeneType::Hidden) {
            let touched = edges.iter().any(|(s, d)| s == id || d == id);
            assert!(touched, "isolated hidden neuron");
        }
    }
    // The store stays ordered by packed identifier.
    for w in 1..genes.len() {
        let key = |gene: &Gene| encode_id(gene.key_id());
        assert!(key(&genes[w - 1]) <= key(&genes[w]), "store not sorted");
    }
}

#[test]
fn new_genome_layout() {
    let g = Genome::new(2, 2);
    let genes = g.genes();
    assert_eq!(genes.len(), 4);
    assert!(matches!(genes[0], Gene::Input { id, children: 0, .. } if id == nid(0, 0)));
    assert!(matches!(genes[1], Gene::Input { id, children: 0, .. } if id == nid(1, 0)));
    assert!(matches!(genes[2], Gene::Output { id, children: 0, .. } if id == nid(254, 0)));
    assert!(matches!(genes[3], Gene::Output { id, children: 0, .. } if id == nid(255, 0)));
}

#[test]
fn grow_from_first_input() {
    let mut g = Genome::new(2, 2);
    let child = g.grow_child(nid(0, 0));
    assert_eq!(child, Some(nid(0, 1)));
    assert_eq!(g.genes().len(), 6);
    assert_eq!(g.get_gene_type(nid(0, 1)), Some(GeneType::Hidden));
    assert_eq!(neuron_children(&g, nid(0, 1)), Some(0));
    assert_eq!(neuron_children(&g, nid(0, 0)), Some(1));
    assert_eq!(synapse_status(&g, nid(0, 0), nid(0, 1)), Some(SynapseStatus::Enabled));
    check_structural_invariants(&g);
}

#[test]
fn random_child_grows_one_input() {
    let mut g = Genome::new(2, 2);
    let mut rng = StdRng::seed_from_u64(42);
    let r = g.random_child(&mut rng);
    let (p, c) = r.expect("candidates exist");
    assert!(p == nid(0, 0) || p == nid(1, 0));
    assert_eq!(c, nid(p.seed, 1));
    assert_eq!(neuron_children(&g, p), Some(1));
    assert_eq!(synapse_status(&g, p, c), Some(SynapseStatus::Enabled));
    check_structural_invariants(&g);
}

#[test]
fn neuron_candidates_shallowest_first() {
    let mut g = Genome::new(2, 2);
    assert_eq!(g.grow_child(nid(0, 0)), Some(nid(0, 1)));
    assert_eq!(g.grow_child(nid(0, 1)), Some(nid(0, 3)));
    let cands = g.get_neuron_candidates();
    // Parents at height 0 come before the hidden parents deeper down.
    let heights: Vec<u32> = cands.iter().map(|(p, _)| get_neuron_height(p.pos)).collect();
    for w in 1..heights.len() {
        assert!(heights[w - 1] <= heights[w]);
    }
    assert_eq!(cands[0], (nid(0, 0), nid(0, 2)));
    assert_eq!(cands[1], (nid(1, 0), nid(1, 1)));
    assert!(cands.contains(&(nid(0, 1), nid(0, 4))));
    assert!(cands.contains(&(nid(0, 3), nid(0, 7))));
}

#[test]
fn grow_and_link_without_legal_target() {
    // No outputs and every other neuron at height 0: the new child has no
    // legal outgoing target, yet the neuron and its incoming synapse
    // still commit.
    let mut g = Genome::new(2, 0);
    let mut rng = StdRng::seed_from_u64(7);
    let r = g.rand_connected_child(&mut rng);
    let (p, c, target) = r.expect("growth candidates exist");
    assert_eq!(target, None);
    assert_eq!(c, nid(p.seed, 1));
    assert_eq!(g.get_gene_type(c), Some(GeneType::Hidden));
    assert_eq!(synapse_status(&g, p, c), Some(SynapseStatus::Enabled));
    let outgoing = g
        .genes()
        .iter()
        .any(|gene| matches!(gene, Gene::Synapse { source, .. } if *source == c));
    assert!(!outgoing);
    check_structural_invariants(&g);
}

#[test]
fn grow_and_link_reaches_an_output() {
    let mut g = Genome::new(2, 2);
    let mut rng = StdRng::seed_from_u64(3);
    let r = g.rand_connected_child(&mut rng);
    let (p, c, target) = r.expect("growth candidates exist");
    // The only legal targets of the new height-1 child are the outputs.
    let t = target.expect("outputs are always legal targets");
    assert!(t == nid(254, 0) || t == nid(255, 0));
    assert!(g.are_connected(p, c));
    assert!(g.are_connected(c, t));
    check_structural_invariants(&g);
}

#[test]
fn add_synapse_enforces_every_gate() {
    let mut g = Genome::new(2, 2);
    // Self-connection.
    assert!(!g.add_synapse(nid(0, 0), nid(0, 0)));
    // Equal height, not an output.
    assert!(!g.add_synapse(nid(0, 0), nid(1, 0)));
    // Output neurons never source.
    assert!(!g.add_synapse(nid(255, 0), nid(0, 0)));
    // Unknown endpoints.
    assert!(!g.add_synapse(nid(9, 0), nid(255, 0)));
    assert!(!g.add_synapse(nid(0, 0), nid(9, 1)));
    // A legal edge into an output commits exactly once.
    assert!(g.add_synapse(nid(0, 0), nid(255, 0)));
    assert!(!g.add_synapse(nid(0, 0), nid(255, 0)));
    assert_eq!(g.genes().len(), 5);
    check_structural_invariants(&g);
}

#[test]
fn random_synapse_targets_an_output() {
    let mut g = Genome::new(2, 2);
    let mut rng = StdRng::seed_from_u64(11);
    let r = g.random_synapse(&mut rng);
    let (s, t) = r.expect("outputs are legal targets");
    assert!(s == nid(0, 0) || s == nid(1, 0));
    assert!(t == nid(254, 0) || t == nid(255, 0));
    assert!(g.are_connected(s, t));
    check_structural_invariants(&g);
}

#[test]
fn disable_then_remove_keeps_input_neuron() {
    let mut g = Genome::new(2, 2);
    assert!(g.add_synapse(nid(0, 0), nid(255, 0)));
    let mut rng = StdRng::seed_from_u64(5);
    let disabled = g.disable_random_synapse(&mut rng);
    assert!(disabled.is_some());
    assert_eq!(synapse_status(&g, nid(0, 0), nid(255, 0)), Some(SynapseStatus::Disabled));
    let removed = g.remove_random_disabled_synapse(&mut rng);
    assert_eq!(removed, Some((nid(0, 0), nid(255, 0))));
    assert_eq!(synapse_status(&g, nid(0, 0), nid(255, 0)), None);
    // Both endpoints are input/output neurons: never pruned.
    assert_eq!(g.get_gene_type(nid(0, 0)), Some(GeneType::Input));
    assert_eq!(g.get_gene_type(nid(255, 0)), Some(GeneType::Output));
    assert_eq!(g.genes().len(), 4);
    check_structural_invariants(&g);
}

#[test]
fn toggle_by_endpoints_reports_lookup_miss() {
    let mut g = Genome::new(2, 2);
    assert!(!g.set_synapse_status(nid(0, 0), nid(255, 0), SynapseStatus::Disabled));
    assert!(g.add_synapse(nid(0, 0), nid(255, 0)));
    assert!(g.set_synapse_status(nid(0, 0), nid(255, 0), SynapseStatus::Disabled));
    assert_eq!(synapse_status(&g, nid(0, 0), nid(255, 0)), Some(SynapseStatus::Disabled));
    assert!(g.set_synapse_status(nid(0, 0), nid(255, 0), SynapseStatus::Enabled));
    assert_eq!(synapse_status(&g, nid(0, 0), nid(255, 0)), Some(SynapseStatus::Enabled));
}

#[test]
fn toggles_report_empty_candidate_sets() {
    let mut g = Genome::new(2, 2);
    let mut rng = StdRng::seed_from_u64(1);
    assert_eq!(g.disable_random_synapse(&mut rng), None);
    assert_eq!(g.enable_random_synapse(&mut rng), None);
    assert_eq!(g.remove_random_disabled_synapse(&mut rng), None);
    assert!(g.add_synapse(nid(0, 0), nid(255, 0)));
    // Only an enabled synapse exists: nothing to enable.
    assert_eq!(g.enable_random_synapse(&mut rng), None);
    let idx = g.disable_random_synapse(&mut rng).expect("one enabled synapse");
    assert!(matches!(g.genes()[idx], Gene::Synapse { status: SynapseStatus::Disabled, .. }));
}

#[test]
fn synapse_targets_of_deep_neuron_are_outputs_only() {
    let mut g = Genome::new(2, 2);
    assert_eq!(g.grow_child(nid(0, 0)), Some(nid(0, 1)));
    assert_eq!(g.grow_child(nid(0, 1)), Some(nid(0, 3)));
    assert_eq!(g.grow_child(nid(0, 3)), Some(nid(0, 7)));
    assert_eq!(get_neuron_height(7), 3);
    let targets = g.get_synapse_candidates(nid(0, 7));
    assert_eq!(targets, vec![nid(254, 0), nid(255, 0)]);
}

#[test]
fn possible_sources_exclude_outputs() {
    let mut g = Genome::new(2, 2);
    assert_eq!(g.grow_child(nid(0, 0)), Some(nid(0, 1)));
    let sources = g.get_possible_synapse_sources();
    assert_eq!(sources, vec![nid(0, 0), nid(0, 1), nid(1, 0)]);
}

#[test]
fn removing_one_of_two_synapses_keeps_hidden_neuron() {
    let mut g = Genome::new(2, 2);
    assert_eq!(g.grow_child(nid(0, 0)), Some(nid(0, 1)));
    assert!(g.add_synapse(nid(0, 1), nid(255, 0)));
    // Two synapses touch (0,1); removing one leaves it present.
    assert!(g.remove_synapse(nid(0, 1), nid(255, 0)));
    assert_eq!(g.get_gene_type(nid(0, 1)), Some(GeneType::Hidden));
    check_structural_invariants(&g);
    // Removing the last one prunes it and hands the slot back.
    assert!(g.remove_synapse(nid(0, 0), nid(0, 1)));
    assert_eq!(g.get_gene_type(nid(0, 1)), None);
    assert_eq!(neuron_children(&g, nid(0, 0)), Some(0));
    assert_eq!(g.genes().len(), 4);
    check_structural_invariants(&g);
}

#[test]
fn remove_synapse_reports_lookup_miss() {
    let mut g = Genome::new(2, 2);
    let before = g.genes().clone();
    assert!(!g.remove_synapse(nid(0, 0), nid(255, 0)));
    assert_eq!(g.genes().len(), before.len());
    for (a, b) in g.genes().iter().zip(before.iter()) {
        assert_eq!(a, b);
    }
}

#[test]
fn disabled_edge_endpoints_lists_disabled_only() {
    let mut g = Genome::new(2, 2);
    assert!(g.add_synapse(nid(0, 0), nid(255, 0)));
    assert!(g.add_synapse(nid(1, 0), nid(254, 0)));
    assert!(g.set_synapse_status(nid(1, 0), nid(254, 0), SynapseStatus::Disabled));
    let eps = g.disabled_edge_endpoints();
    assert_eq!(eps, vec![(nid(1, 0), nid(254, 0))]);
}

#[test]
fn invariants_hold_under_random_operator_storm() {
    let mut g = Genome::new(3, 2);
    let mut rng = StdRng::seed_from_u64(20240131);
    for step in 0..300 {
        match step % 6 {
            0 => {
                g.random_child(&mut rng);
            }
            1 => {
                g.random_synapse(&mut rng);
            }
            2 => {
                g.rand_connected_child(&mut rng);
            }
            3 => {
                g.disable_random_synapse(&mut rng);
            }
            4 => {
                g.remove_random_disabled_synapse(&mut rng);
            }
            _ => {
                g.enable_random_synapse(&mut rng);
            }
        }
        check_structural_invariants(&g);
    }
    // Inputs and outputs survive any storm.
    for id in [nid(0, 0), nid(1, 0), nid(2, 0)] {
        assert_eq!(g.get_gene_type(id), Some(GeneType::Input));
    }
    for id in [nid(254, 0), nid(255, 0)] {
        assert_eq!(g.get_gene_type(id), Some(GeneType::Output));
    }
}

#[test]
fn growth_saturates_to_empty_candidate_set() {
    let mut g = Genome::new(1, 1);
    let mut rng = StdRng::seed_from_u64(99);
    let mut grew = 0;
    for _ in 0..600 {
        if g.random_child(&mut rng).is_some() {
            grew += 1;
        }
    }
    assert!(grew > 0);
    // Once saturated, growth is reported as a no-op.
    let before = g.genes().len();
    assert_eq!(g.random_child(&mut rng), None);
    assert_eq!(g.genes().len(), before);
    assert!(g.get_neuron_candidates().is_empty());
    check_structural_invariants(&g);
}

#[test]
fn empty_genome_has_no_candidates() {
    let mut g = Genome::new(0, 0);
    assert!(g.genes().is_empty());
    assert!(g.get_neuron_candidates().is_empty());
    assert!(g.get_possible_synapse_sources().is_empty());
    let mut rng = StdRng::seed_from_u64(4);
    assert_eq!(g.random_child(&mut rng), None);
    assert_eq!(g.random_synapse(&mut rng), None);
}

#[test]
fn full_seed_range_genome() {
    let g = Genome::new(200, 56);
    assert_eq!(g.genes().len(), 256);
    assert_eq!(g.get_gene_type(nid(0, 0)), Some(GeneType::Input));
    assert_eq!(g.get_gene_type(nid(199, 0)), Some(GeneType::Input));
    assert_eq!(g.get_gene_type(nid(200, 0)), Some(GeneType::Output));
    assert_eq!(g.get_gene_type(nid(255, 0)), Some(GeneType::Output));
    check_structural_invariants(&g);
}
