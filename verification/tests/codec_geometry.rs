use aster_ml::GeneType;
use aster_ml::NeuronId;
use aster_ml::SynapseStatus;
use aster_ml::decode_id;
use aster_ml::encode_id;
use aster_ml::get_inorder_position;
use aster_ml::get_neuron_height;

fn nid(seed: u8, pos: u8) -> NeuronId {
    NeuronId { seed, pos }
}

#[test]
fn roundtrip_every_identifier() {
    for seed in 0..=255u8 {
        for pos in 0..=255u8 {
            let id = nid(seed, pos);
            assert_eq!(decode_id(encode_id(id)), id);
        }
    }
}

#[test]
fn encode_packs_seed_high_pos_low() {
    assert_eq!(encode_id(nid(0, 0)), 0);
    assert_eq!(encode_id(nid(1, 2)), 258);
    assert_eq!(encode_id(nid(255, 0)), 65280);
    assert_eq!(encode_id(nid(255, 255)), 65535);
    assert_eq!(decode_id(258), nid(1, 2));
    assert_eq!(decode_id(65280), nid(255, 0));
}

#[test]
fn height_of_small_positions() {
    assert_eq!(get_neuron_height(0), 0);
    assert_eq!(get_neuron_height(1), 1);
    assert_eq!(get_neuron_height(2), 1);
    assert_eq!(get_neuron_height(3), 2);
    assert_eq!(get_neuron_height(6), 2);
    assert_eq!(get_neuron_height(7), 3);
    assert_eq!(get_neuron_height(126), 6);
    assert_eq!(get_neuron_height(127), 7);
    assert_eq!(get_neuron_height(254), 7);
    assert_eq!(get_neuron_height(255), 8);
}

#[test]
fn height_of_children_is_one_more() {
    for p in 0..=126u8 {
        let h = get_neuron_height(p);
        assert_eq!(get_neuron_height(2 * p + 1), h + 1);
        assert_eq!(get_neuron_height(2 * p + 2), h + 1);
    }
}

#[test]
fn inorder_rank_of_small_positions() {
    assert_eq!(get_inorder_position(0), 0);
    assert_eq!(get_inorder_position(1), 0);
    assert_eq!(get_inorder_position(2), 1);
    assert_eq!(get_inorder_position(3), 0);
    assert_eq!(get_inorder_position(4), 1);
    assert_eq!(get_inorder_position(5), 2);
    assert_eq!(get_inorder_position(6), 3);
    assert_eq!(get_inorder_position(7), 0);
    assert_eq!(get_inorder_position(14), 7);
}

#[test]
fn inorder_rank_recurrence_holds() {
    for p in 1..=1000u16 {
        let parent = (p - 1) / 2;
        let expect = if p % 2 == 1 {
            2 * get_inorder_position(parent)
        } else {
            2 * get_inorder_position(parent) + 1
        };
        assert_eq!(get_inorder_position(p), expect);
    }
}

#[test]
fn gene_type_byte_forms() {
    assert_eq!(GeneType::from_u8(1), Some(GeneType::Input));
    assert_eq!(GeneType::from_u8(2), Some(GeneType::Hidden));
    assert_eq!(GeneType::from_u8(3), Some(GeneType::Output));
    assert_eq!(GeneType::from_u8(10), Some(GeneType::Synapse));
    assert_eq!(GeneType::from_u8(0), None);
    assert_eq!(GeneType::from_u8(4), None);
    assert_eq!(GeneType::Input.as_u8(), 1);
    assert_eq!(GeneType::Hidden.as_u8(), 2);
    assert_eq!(GeneType::Output.as_u8(), 3);
    assert_eq!(GeneType::Synapse.as_u8(), 10);
}

#[test]
fn synapse_status_byte_forms() {
    assert_eq!(SynapseStatus::from_u8(10), Some(SynapseStatus::Enabled));
    assert_eq!(SynapseStatus::from_u8(11), Some(SynapseStatus::Disabled));
    assert_eq!(SynapseStatus::from_u8(0), None);
    assert_eq!(SynapseStatus::from_u8(12), None);
    assert_eq!(SynapseStatus::Enabled.as_u8(), 10);
    assert_eq!(SynapseStatus::Disabled.as_u8(), 11);
}
