//! The structural laws every well-formed genome obeys, stated on their
//! own so callers can rely on them without unfolding the invariant.
//!
//! The mutation operators of [`crate::genome`] each ensure that
//! well-formedness is preserved, so by induction these laws hold after any
//! sequence of operator calls on a freshly created genome.

use vstd::prelude::*;

use crate::codec::NeuronId;
use crate::codec::lemma_codec_round_trip;
use crate::codec::spec_decode_id;
use crate::codec::spec_encode_id;
use crate::gene::Gene;
use crate::genome::drop_gene;
use crate::genome::removed_synapse;
use crate::geometry::spec_height;
use crate::invariants::child_slot_count;
use crate::invariants::genome_wf;
use crate::invariants::has_neuron;
use crate::invariants::has_output;
use crate::invariants::has_synapse;
use crate::invariants::neuron_gene;
use crate::invariants::synapse_gene;
use crate::invariants::touches;
use crate::invariants::touches_any;

verus! {

/// Law: the encoded network is acyclic.  In a well-formed genome, every
/// synapse's decoded destination is either an output neuron or sits
/// strictly deeper in its growth tree than the source; since synapses
/// always climb in height except for terminal edges into outputs (which
/// source nothing), no cycle can exist.
pub proof fn lemma_acyclic_edge(s: Seq<Gene>, g: Gene)
    requires
        genome_wf(s),
        s.contains(g),
        g is Synapse,
    ensures
        has_output(s, spec_decode_id(g.dest_enc())) || spec_height(
            spec_decode_id(g.dest_enc()).pos as int,
        ) > spec_height(g.own_id().pos as int),
        has_neuron(s, spec_decode_id(g.dest_enc())),
{
    let n = choose|n: Gene|
        #[trigger] s.contains(n) && n.is_neuron() && spec_encode_id(n.own_id()) == g.dest_enc()
            && (n is Output || spec_height(n.own_id().pos as int) > spec_height(
            g.own_id().pos as int,
        ));
    lemma_codec_round_trip(n.own_id());
    assert(n.own_id() == spec_decode_id(g.dest_enc()));
}

/// Law: no duplicate edges.  In a well-formed genome, two synapse genes at
/// different positions never share both their source and their
/// destination.
pub proof fn lemma_no_duplicate_edges(s: Seq<Gene>, i: int, j: int)
    requires
        genome_wf(s),
        0 <= i < j < s.len(),
        s[i] is Synapse,
        s[j] is Synapse,
    ensures
        !(s[i].own_id() == s[j].own_id() && s[i].dest_enc() == s[j].dest_enc()),
{
    assert(s.contains(s[i]));
    assert(s.contains(s[j]));
}

/// Law: growth-counter consistency.  In a well-formed genome, every
/// neuron's stored growth counter equals the number of hidden neurons
/// actually occupying its two child slots.
pub proof fn lemma_growth_counter(s: Seq<Gene>, g: Gene)
    requires
        genome_wf(s),
        s.contains(g),
        g.is_neuron(),
    ensures
        g.child_count() as int == child_slot_count(s, g.own_id()),
{
}

/// Law: no self-connections.  In a well-formed genome, no synapse's
/// decoded destination is its own source.
pub proof fn lemma_no_self_loop(s: Seq<Gene>, g: Gene)
    requires
        genome_wf(s),
        s.contains(g),
        g is Synapse,
    ensures
        spec_decode_id(g.dest_enc()) != g.own_id(),
{
    lemma_codec_round_trip(g.own_id());
    if spec_decode_id(g.dest_enc()) == g.own_id() {
        let n = choose|n: Gene|
            #[trigger] s.contains(n) && n.is_neuron() && spec_encode_id(n.own_id())
                == g.dest_enc() && (n is Output || spec_height(n.own_id().pos as int)
                > spec_height(g.own_id().pos as int));
        lemma_codec_round_trip(n.own_id());
        assert(g.dest_enc() == spec_encode_id(g.own_id()));
    }
}

/// Law: isolation pruning.  Removing a synapse deletes a hidden endpoint
/// exactly when the removed synapse was the only one touching it: an
/// endpoint whose only synapse it was disappears, an endpoint touched by
/// another synapse stays, and non-hidden endpoints always stay.
pub proof fn lemma_isolation_pruning(s: Seq<Gene>, from: NeuronId, to: NeuronId, e: NeuronId)
    requires
        genome_wf(s),
        has_synapse(s, from, spec_encode_id(to)),
        e == from || e == to,
    ensures
        ({
            let sg = synapse_gene(s, from, spec_encode_id(to));
            let s3 = removed_synapse(s, from, to);
            &&& (has_neuron(s, e) && neuron_gene(s, e) is Hidden && (forall|w: Gene|
                #[trigger] s.contains(w) && touches(w, e) ==> w == sg)) ==> !has_neuron(s3, e)
            &&& (has_neuron(s, e) && (exists|w: Gene|
                #[trigger] s.contains(w) && touches(w, e) && w != sg)) ==> has_neuron(s3, e)
            &&& (has_neuron(s, e) && !(neuron_gene(s, e) is Hidden)) ==> has_neuron(s3, e)
        }),
{
    let sg = synapse_gene(s, from, spec_encode_id(to));
    assert(s.contains(sg) && sg is Synapse && sg.own_id() == from && sg.dest_enc()
        == spec_encode_id(to));
    lemma_codec_round_trip(from);
    lemma_codec_round_trip(to);
    assert(from != to) by {
        if from == to {
            assert(sg.dest_enc() == spec_encode_id(sg.own_id()));
        }
    }
    crate::genome::lemma_wf_drop_synapse(s, sg);
    let s1 = drop_gene(s, sg);
    crate::genome::lemma_prune(s1, from);
    let s2 = crate::genome::prune_spec(s1, from);
    crate::genome::lemma_prune(s2, to);
    let s3 = crate::genome::prune_spec(s2, to);
    assert(s3 == removed_synapse(s, from, to));

    // Presence of `e` in s1 mirrors presence in s, and the neuron gene is
    // the same record.
    if has_neuron(s, e) {
        let eg = neuron_gene(s, e);
        assert(s.contains(eg) && eg.is_neuron() && eg.own_id() == e);
        assert(eg != sg);
        assert(s1.contains(eg));
        assert(has_neuron(s1, e));
        assert(neuron_gene(s1, e) == eg) by {
            let n = neuron_gene(s1, e);
            assert(s1.contains(n) && n.is_neuron() && n.own_id() == e);
            assert(s.contains(n));
        }

        if eg is Hidden && (forall|w: Gene| #[trigger] s.contains(w) && touches(w, e) ==> w
            == sg) {
            // The removed synapse was the only one touching `e`.
            assert(!touches_any(s1, e)) by {
                if touches_any(s1, e) {
                    let w = choose|w: Gene| #[trigger] s1.contains(w) && touches(w, e);
                    assert(s.contains(w));
                    assert(w == sg);
                }
            }
            if e == from {
                assert(!has_neuron(s2, from));
                assert(!has_neuron(s3, from));
            } else {
                assert(has_neuron(s2, to) <==> has_neuron(s1, to));
                assert(neuron_gene(s2, to) is Hidden) by {
                    let n = neuron_gene(s2, to);
                    assert(s2.contains(n) && n.is_neuron() && n.own_id() == to);
                    assert(neuron_gene(s2, to) is Hidden == neuron_gene(s1, to) is Hidden);
                }
                assert(!touches_any(s2, to));
                assert(!has_neuron(s3, to));
            }
        }
        if exists|w: Gene| #[trigger] s.contains(w) && touches(w, e) && w != sg {
            let w = choose|w: Gene| #[trigger] s.contains(w) && touches(w, e) && w != sg;
            assert(s1.contains(w));
            assert(touches_any(s1, e));
            if e == from {
                assert(has_neuron(s2, from));
                assert(has_neuron(s3, from));
            } else {
                assert(has_neuron(s2, to));
                assert(touches_any(s2, to));
                assert(has_neuron(s3, to));
            }
        }
        if !(eg is Hidden) {
            if e == from {
                assert(!(neuron_gene(s1, from) is Hidden));
                assert(has_neuron(s2, from));
                assert(has_neuron(s3, from));
            } else {
                assert(has_neuron(s2, to));
                assert(neuron_gene(s2, to) is Hidden == neuron_gene(s1, to) is Hidden);
                assert(!(neuron_gene(s2, to) is Hidden));
                assert(has_neuron(s3, to));
            }
        }
    }
}

} // verus!
