//! Structural invariants of a genome, stated over its sequence of genes.
//!
//! The predicates here describe the shape every genome keeps after each
//! mutation operator: ordering, uniqueness of neuron identifiers and of
//! edges, the height rule that keeps the network acyclic, growth-counter
//! consistency, and the guarantee that hidden neurons never sit isolated.

use vstd::prelude::*;

use crate::codec::NeuronId;
use crate::codec::spec_encode_id;
use crate::gene::Gene;
use crate::geometry::spec_height;

verus! {

/// The growth-tree parent of a non-root position.
pub open spec fn tree_parent(id: NeuronId) -> NeuronId
    recommends
        id.pos > 0,
{
    NeuronId { seed: id.seed, pos: ((id.pos - 1) / 2) as u8 }
}

/// Some neuron gene with this identifier is present.
pub open spec fn has_neuron(s: Seq<Gene>, id: NeuronId) -> bool {
    exists|g: Gene| #[trigger] s.contains(g) && g.is_neuron() && g.own_id() == id
}

/// The neuron gene carrying this identifier (meaningful when present and
/// unique).
pub open spec fn neuron_gene(s: Seq<Gene>, id: NeuronId) -> Gene {
    choose|g: Gene| #[trigger] s.contains(g) && g.is_neuron() && g.own_id() == id
}

/// An output neuron gene with this identifier is present.
pub open spec fn has_output(s: Seq<Gene>, id: NeuronId) -> bool {
    exists|g: Gene| #[trigger] s.contains(g) && g is Output && g.own_id() == id
}

/// A hidden neuron gene sits at this (possibly out-of-byte-range) position
/// of the given growth tree.
pub open spec fn has_hidden_at(s: Seq<Gene>, seed: u8, pos: int) -> bool {
    exists|g: Gene|
        #[trigger] s.contains(g) && g is Hidden && g.own_id().seed == seed && g.own_id().pos == pos
}

/// A synapse gene from `src` to the packed destination `dst` is present.
pub open spec fn has_synapse(s: Seq<Gene>, src: NeuronId, dst: u16) -> bool {
    exists|g: Gene|
        #[trigger] s.contains(g) && g is Synapse && g.own_id() == src && g.dest_enc() == dst
}

/// The synapse gene with these endpoints (meaningful when present and
/// unique).
pub open spec fn synapse_gene(s: Seq<Gene>, src: NeuronId, dst: u16) -> Gene {
    choose|g: Gene|
        #[trigger] s.contains(g) && g is Synapse && g.own_id() == src && g.dest_enc() == dst
}

/// The synapse `g` has the neuron `id` as one of its two endpoints.
pub open spec fn touches(g: Gene, id: NeuronId) -> bool {
    g is Synapse && (g.own_id() == id || g.dest_enc() == spec_encode_id(id))
}

/// Some synapse of the genome has `id` as an endpoint.
pub open spec fn touches_any(s: Seq<Gene>, id: NeuronId) -> bool {
    exists|g: Gene| #[trigger] s.contains(g) && touches(g, id)
}

/// How many of the two child slots of `id` are occupied by hidden neurons.
pub open spec fn child_slot_count(s: Seq<Gene>, id: NeuronId) -> int {
    (if has_hidden_at(s, id.seed, 2 * (id.pos as int) + 1) {
        1int
    } else {
        0int
    }) + (if has_hidden_at(s, id.seed, 2 * (id.pos as int) + 2) {
        1int
    } else {
        0int
    })
}

/// The genes are ordered by their packed identifier key.
pub open spec fn sorted_by_key(s: Seq<Gene>) -> bool {
    forall|i: int, j: int|
        0 <= i < j < s.len() ==> #[trigger] s[i].sort_key() <= #[trigger] s[j].sort_key()
}

/// No gene record occurs twice.
pub open spec fn no_dup_genes(s: Seq<Gene>) -> bool {
    forall|i: int, j: int| 0 <= i < j < s.len() ==> #[trigger] s[i] != #[trigger] s[j]
}

/// Neuron identifiers are unique: two neuron genes with the same identifier
/// are the same record.
pub open spec fn unique_neurons(s: Seq<Gene>) -> bool {
    forall|g1: Gene, g2: Gene|
        #[trigger] s.contains(g1) && #[trigger] s.contains(g2) && g1.is_neuron() && g2.is_neuron()
            && g1.own_id() == g2.own_id() ==> g1 == g2
}

/// Edges are unique: two synapse genes with the same source and destination
/// are the same record.
pub open spec fn unique_edges(s: Seq<Gene>) -> bool {
    forall|g1: Gene, g2: Gene|
        #[trigger] s.contains(g1) && #[trigger] s.contains(g2) && g1 is Synapse && g2 is Synapse
            && g1.own_id() == g2.own_id() && g1.dest_enc() == g2.dest_enc() ==> g1 == g2
}

/// No synapse connects a neuron to itself.
pub open spec fn no_self_loops(s: Seq<Gene>) -> bool {
    forall|g: Gene|
        #[trigger] s.contains(g) && g is Synapse ==> g.dest_enc() != spec_encode_id(g.own_id())
}

/// The source of `g` is a present input or hidden neuron.
pub open spec fn edge_source_ok(s: Seq<Gene>, g: Gene) -> bool {
    exists|n: Gene|
        #[trigger] s.contains(n) && n.is_neuron() && !(n is Output) && n.own_id() == g.own_id()
}

/// The destination of `g` is a present neuron that is either an output or
/// sits strictly deeper in its growth tree than the source; this height
/// rule is the sole mechanism keeping the network acyclic.
pub open spec fn edge_dest_ok(s: Seq<Gene>, g: Gene) -> bool {
    exists|n: Gene|
        #[trigger] s.contains(n) && n.is_neuron() && spec_encode_id(n.own_id()) == g.dest_enc()
            && (n is Output || spec_height(n.own_id().pos as int) > spec_height(
            g.own_id().pos as int,
        ))
}

/// Every synapse has a legal source and a legal destination.
pub open spec fn edges_ok(s: Seq<Gene>) -> bool {
    forall|g: Gene|
        #[trigger] s.contains(g) && g is Synapse ==> edge_source_ok(s, g) && edge_dest_ok(s, g)
}

/// Role constraints on a single gene: input and output neurons are tree
/// roots, hidden neurons never are.
pub open spec fn kind_ok(g: Gene) -> bool {
    match g {
        Gene::Input { id, .. } => id.pos == 0,
        Gene::Output { id, .. } => id.pos == 0,
        Gene::Hidden { id, .. } => id.pos > 0,
        Gene::Synapse { .. } => true,
    }
}

/// Role constraints hold of every gene.
pub open spec fn kinds_ok(s: Seq<Gene>) -> bool {
    forall|g: Gene| #[trigger] s.contains(g) ==> kind_ok(g)
}

/// Every neuron's stored growth counter equals the number of hidden
/// neurons actually occupying its two child slots.
pub open spec fn counters_ok(s: Seq<Gene>) -> bool {
    forall|g: Gene|
        #[trigger] s.contains(g) && g.is_neuron() ==> g.child_count() as int == child_slot_count(
            s,
            g.own_id(),
        )
}

/// Every hidden neuron is touched by at least one synapse.
pub open spec fn hidden_connected(s: Seq<Gene>) -> bool {
    forall|g: Gene| #[trigger] s.contains(g) && g is Hidden ==> touches_any(s, g.own_id())
}

/// The tree parent of a hidden neuron, when present, is never an output
/// neuron: hidden neurons only ever grow inside input-rooted trees.
pub open spec fn parents_ok(s: Seq<Gene>) -> bool {
    forall|g: Gene, n: Gene|
        #[trigger] s.contains(g) && #[trigger] s.contains(n) && g is Hidden && n.is_neuron()
            && n.own_id() == tree_parent(g.own_id()) ==> !(n is Output)
}

/// Membership in a sequence with one gene inserted: exactly the old
/// members plus the new gene.
pub proof fn lemma_insert_contains(s: Seq<Gene>, i: int, g: Gene)
    requires
        0 <= i <= s.len(),
    ensures
        forall|x: Gene| #[trigger] s.insert(i, g).contains(x) <==> (s.contains(x) || x == g),
        s.insert(i, g).len() == s.len() + 1,
{
    let s2 = s.insert(i, g);
    s.insert_ensures(i, g);
    assert forall|x: Gene| #[trigger] s2.contains(x) implies (s.contains(x) || x == g) by {
        let j = choose|j: int| 0 <= j < s2.len() && s2[j] == x;
        if j < i {
            assert(s[j] == x);
        } else if j > i {
            assert(s2[(j - 1) + 1] == s[j - 1]);
            assert(s[j - 1] == x);
        }
    }
    assert forall|x: Gene| s.contains(x) || x == g implies #[trigger] s2.contains(x) by {
        if x == g {
            assert(s2[i] == x);
        } else {
            let j = choose|j: int| 0 <= j < s.len() && s[j] == x;
            if j < i {
                assert(s2[j] == x);
            } else {
                assert(s2[j + 1] == x);
            }
        }
    }
}

/// Inserting a fresh gene at a key-respecting position keeps the sequence
/// ordered and duplicate-free.
pub proof fn lemma_insert_keeps_order(s: Seq<Gene>, i: int, g: Gene)
    requires
        0 <= i <= s.len(),
        sorted_by_key(s),
        no_dup_genes(s),
        !s.contains(g),
        forall|j: int| 0 <= j < i ==> s[j].sort_key() <= g.sort_key(),
        forall|j: int| i <= j < s.len() ==> g.sort_key() <= s[j].sort_key(),
    ensures
        sorted_by_key(s.insert(i, g)),
        no_dup_genes(s.insert(i, g)),
{
    let s2 = s.insert(i, g);
    s.insert_ensures(i, g);
    assert forall|a: int, b: int| 0 <= a < b < s2.len() implies #[trigger] s2[a].sort_key()
        <= #[trigger] s2[b].sort_key() by {
        if a < i && b < i {
        } else if a < i && b == i {
        } else if a < i && b > i {
            assert(s2[b] == s[b - 1]);
        } else if a == i {
            assert(s2[b] == s[b - 1]);
        } else {
            assert(s2[a] == s[a - 1]);
            assert(s2[b] == s[b - 1]);
        }
    }
    assert forall|a: int, b: int| 0 <= a < b < s2.len() implies #[trigger] s2[a] != #[trigger]
        s2[b] by {
        if a == i {
            assert(s2[b] == s[b - 1]);
            assert(s.contains(s[b - 1]));
        } else if b == i {
            assert(s2[a] == s[a]);
            assert(s.contains(s[a]));
        } else {
            let a0 = if a < i {
                a
            } else {
                a - 1
            };
            let b0 = if b < i {
                b
            } else {
                b - 1
            };
            assert(s2[a] == s[a0]);
            assert(s2[b] == s[b0]);
        }
    }
}

/// Membership in a duplicate-free sequence with the gene at one index
/// removed: exactly the old members minus that gene.
pub proof fn lemma_remove_contains(s: Seq<Gene>, i: int)
    requires
        0 <= i < s.len(),
        no_dup_genes(s),
    ensures
        forall|x: Gene| x != s[i] ==> (#[trigger] s.remove(i).contains(x) <==> s.contains(x)),
        !s.remove(i).contains(s[i]),
        s.remove(i).len() == s.len() - 1,
        sorted_by_key(s) ==> sorted_by_key(s.remove(i)),
        no_dup_genes(s.remove(i)),
{
    let s2 = s.remove(i);
    s.remove_ensures(i);
    assert forall|x: Gene| x != s[i] implies (#[trigger] s2.contains(x) <==> s.contains(x)) by {
        if s2.contains(x) {
            let j = choose|j: int| 0 <= j < s2.len() && s2[j] == x;
            if j < i {
                assert(s[j] == x);
            } else {
                assert(s[j + 1] == x);
            }
        }
        if s.contains(x) {
            let j = choose|j: int| 0 <= j < s.len() && s[j] == x;
            if j < i {
                assert(s2[j] == x);
            } else {
                assert(j > i);
                assert(s2[j - 1] == x);
            }
        }
    }
    assert forall|j: int| 0 <= j < s2.len() implies s2[j] != s[i] by {
        if j < i {
            assert(s2[j] == s[j]);
        } else {
            assert(s2[j] == s[j + 1]);
        }
    }
    if sorted_by_key(s) {
        assert forall|a: int, b: int| 0 <= a < b < s2.len() implies #[trigger] s2[a].sort_key()
            <= #[trigger] s2[b].sort_key() by {
            let a0 = if a < i {
                a
            } else {
                a + 1
            };
            let b0 = if b < i {
                b
            } else {
                b + 1
            };
            assert(s2[a] == s[a0]);
            assert(s2[b] == s[b0]);
        }
    }
    assert forall|a: int, b: int| 0 <= a < b < s2.len() implies #[trigger] s2[a] != #[trigger]
        s2[b] by {
        let a0 = if a < i {
            a
        } else {
            a + 1
        };
        let b0 = if b < i {
            b
        } else {
            b + 1
        };
        assert(s2[a] == s[a0]);
        assert(s2[b] == s[b0]);
    }
}

/// Membership in a duplicate-free sequence with the gene at one index
/// replaced by a fresh gene of the same sort key.
pub proof fn lemma_update_contains(s: Seq<Gene>, i: int, g: Gene)
    requires
        0 <= i < s.len(),
        no_dup_genes(s),
        !s.contains(g),
    ensures
        forall|x: Gene|
            x != s[i] && x != g ==> (#[trigger] s.update(i, g).contains(x) <==> s.contains(x)),
        s.update(i, g).contains(g),
        !s.update(i, g).contains(s[i]),
        s.update(i, g).len() == s.len(),
        no_dup_genes(s.update(i, g)),
        sorted_by_key(s) && g.sort_key() == s[i].sort_key() ==> sorted_by_key(s.update(i, g)),
{
    let s2 = s.update(i, g);
    assert(s2[i] == g);
    assert forall|x: Gene| x != s[i] && x != g implies (#[trigger] s2.contains(x) <==> s.contains(
        x,
    )) by {
        if s2.contains(x) {
            let j = choose|j: int| 0 <= j < s2.len() && s2[j] == x;
            assert(j != i);
            assert(s[j] == x);
        }
        if s.contains(x) {
            let j = choose|j: int| 0 <= j < s.len() && s[j] == x;
            assert(j != i);
            assert(s2[j] == x);
        }
    }
    assert forall|j: int| 0 <= j < s2.len() implies s2[j] != s[i] by {
        if j != i {
            assert(s2[j] == s[j]);
            if j < i {
                assert(s[j] != s[i]);
            } else {
                assert(s[i] != s[j]);
            }
        }
    }
    assert forall|a: int, b: int| 0 <= a < b < s2.len() implies #[trigger] s2[a] != #[trigger]
        s2[b] by {
        if a == i {
            assert(s2[b] == s[b]);
            assert(s.contains(s[b]));
        } else if b == i {
            assert(s2[a] == s[a]);
            assert(s.contains(s[a]));
        } else {
            assert(s2[a] == s[a]);
            assert(s2[b] == s[b]);
        }
    }
}

/// Hidden-neuron occupancy is untouched by inserting a non-hidden gene.
pub proof fn lemma_hidden_at_insert_non_hidden(s: Seq<Gene>, i: int, g: Gene)
    requires
        0 <= i <= s.len(),
        !(g is Hidden),
    ensures
        forall|sd: u8, ps: int|
            #[trigger] has_hidden_at(s.insert(i, g), sd, ps) == has_hidden_at(s, sd, ps),
{
    let s2 = s.insert(i, g);
    lemma_insert_contains(s, i, g);
    assert forall|sd: u8, ps: int| #[trigger] has_hidden_at(s2, sd, ps) == has_hidden_at(
        s,
        sd,
        ps,
    ) by {
        if has_hidden_at(s2, sd, ps) {
            let h = choose|h: Gene|
                #[trigger] s2.contains(h) && h is Hidden && h.own_id().seed == sd
                    && h.own_id().pos == ps;
            assert(s.contains(h));
        }
        if has_hidden_at(s, sd, ps) {
            let h = choose|h: Gene|
                #[trigger] s.contains(h) && h is Hidden && h.own_id().seed == sd
                    && h.own_id().pos == ps;
            assert(s2.contains(h));
        }
    }
}

/// Inserting a well-placed, legal synapse gene preserves every invariant.
pub proof fn lemma_wf_insert_synapse(s: Seq<Gene>, i: int, g: Gene)
    requires
        genome_wf(s),
        0 <= i <= s.len(),
        g is Synapse,
        !has_synapse(s, g.own_id(), g.dest_enc()),
        g.dest_enc() != spec_encode_id(g.own_id()),
        edge_source_ok(s, g),
        edge_dest_ok(s, g),
        forall|j: int| 0 <= j < i ==> s[j].sort_key() <= g.sort_key(),
        forall|j: int| i <= j < s.len() ==> g.sort_key() <= s[j].sort_key(),
    ensures
        genome_wf(s.insert(i, g)),
{
    let s2 = s.insert(i, g);
    lemma_insert_contains(s, i, g);
    assert(!s.contains(g)) by {
        if s.contains(g) {
            assert(has_synapse(s, g.own_id(), g.dest_enc()));
        }
    }
    lemma_insert_keeps_order(s, i, g);
    assert(unique_edges(s2)) by {
        assert forall|g1: Gene, g2: Gene|
            #[trigger] s2.contains(g1) && #[trigger] s2.contains(g2) && g1 is Synapse
                && g2 is Synapse && g1.own_id() == g2.own_id() && g1.dest_enc()
                == g2.dest_enc() implies g1 == g2 by {
            if g1 == g && g2 != g {
                assert(s.contains(g2));
                assert(has_synapse(s, g.own_id(), g.dest_enc()));
            } else if g2 == g && g1 != g {
                assert(s.contains(g1));
                assert(has_synapse(s, g.own_id(), g.dest_enc()));
            }
        }
    }
    assert(edges_ok(s2)) by {
        assert forall|x: Gene| #[trigger] s2.contains(x) && x is Synapse implies edge_source_ok(
            s2,
            x,
        ) && edge_dest_ok(s2, x) by {
            if x == g {
                let n1 = choose|n: Gene|
                    #[trigger] s.contains(n) && n.is_neuron() && !(n is Output) && n.own_id()
                        == g.own_id();
                assert(s2.contains(n1));
                let n2 = choose|n: Gene|
                    #[trigger] s.contains(n) && n.is_neuron() && spec_encode_id(n.own_id())
                        == g.dest_enc() && (n is Output || spec_height(n.own_id().pos as int)
                        > spec_height(g.own_id().pos as int));
                assert(s2.contains(n2));
            } else {
                assert(s.contains(x));
                let n1 = choose|n: Gene|
                    #[trigger] s.contains(n) && n.is_neuron() && !(n is Output) && n.own_id()
                        == x.own_id();
                assert(s2.contains(n1));
                let n2 = choose|n: Gene|
                    #[trigger] s.contains(n) && n.is_neuron() && spec_encode_id(n.own_id())
                        == x.dest_enc() && (n is Output || spec_height(n.own_id().pos as int)
                        > spec_height(x.own_id().pos as int));
                assert(s2.contains(n2));
            }
        }
    }
    assert(counters_ok(s2)) by {
        lemma_hidden_at_insert_non_hidden(s, i, g);
        assert forall|x: Gene| #[trigger] s2.contains(x) && x.is_neuron() implies x.child_count()
            as int == child_slot_count(s2, x.own_id()) by {
            assert(s.contains(x));
        }
    }
    assert(hidden_connected(s2)) by {
        assert forall|x: Gene| #[trigger] s2.contains(x) && x is Hidden implies touches_any(
            s2,
            x.own_id(),
        ) by {
            assert(s.contains(x));
            let w = choose|w: Gene| #[trigger] s.contains(w) && touches(w, x.own_id());
            assert(s2.contains(w));
        }
    }
}

/// Every structural invariant except the connectivity of hidden neurons;
/// removal re-establishes connectivity only after pruning both endpoints
/// of the removed synapse.
pub open spec fn wf_partial(s: Seq<Gene>) -> bool {
    &&& sorted_by_key(s)
    &&& no_dup_genes(s)
    &&& unique_neurons(s)
    &&& unique_edges(s)
    &&& no_self_loops(s)
    &&& edges_ok(s)
    &&& kinds_ok(s)
    &&& counters_ok(s)
    &&& parents_ok(s)
}

/// Well-formedness of a genome: every structural invariant at once.
pub open spec fn genome_wf(s: Seq<Gene>) -> bool {
    &&& wf_partial(s)
    &&& hidden_connected(s)
}

} // verus!
