//! The gene store: one genome and its structural mutation operators.
//!
//! A genome owns the ordered collection of gene records encoding one
//! network.  It is created with a fixed number of input and output
//! channels; hidden neurons and synapses are then only ever created and
//! destroyed through the mutation operators, each of which either commits a
//! transition that leaves every invariant of [`crate::invariants`] holding,
//! or changes nothing and reports the empty candidate set.

use vstd::prelude::*;

use crate::codec::NeuronId;
use crate::codec::encode_id;
use crate::codec::spec_decode_id;
use crate::codec::spec_encode_id;
use crate::gene::Gene;
use crate::gene::GeneType;
use crate::gene::SynapseStatus;
use crate::geometry::get_neuron_height;
use crate::geometry::spec_height;
use crate::invariants::child_slot_count;
use crate::invariants::counters_ok;
use crate::invariants::edge_dest_ok;
use crate::invariants::edge_source_ok;
use crate::invariants::edges_ok;
use crate::invariants::genome_wf;
use crate::invariants::has_hidden_at;
use crate::invariants::has_neuron;
use crate::invariants::has_synapse;
use crate::invariants::hidden_connected;
use crate::invariants::neuron_gene;
use crate::invariants::no_dup_genes;
use crate::invariants::no_self_loops;
use crate::invariants::parents_ok;
use crate::invariants::sorted_by_key;
use crate::invariants::synapse_gene;
use crate::invariants::touches;
use crate::invariants::touches_any;
use crate::invariants::tree_parent;
use crate::invariants::unique_edges;
use crate::invariants::unique_neurons;
use crate::invariants::wf_partial;

verus! {

/// The gene record of the input channel `i`.
pub open spec fn input_gene(i: int) -> Gene {
    Gene::Input { id: NeuronId { seed: i as u8, pos: 0 }, children: 0, bias_bits: 0 }
}

/// The gene record of output channel `k` out of `outputs`; output seeds
/// fill the top of the byte range, so channel `k` gets seed
/// `256 - outputs + k`.
pub open spec fn output_gene(outputs: int, k: int) -> Gene {
    Gene::Output { id: NeuronId { seed: (256 - outputs + k) as u8, pos: 0 }, children: 0,
        bias_bits: 0 }
}

/// One genome: the ordered gene collection encoding one candidate
/// network's topology.
pub struct Genome {
    genes: Vec<Gene>,
}

impl View for Genome {
    type V = Seq<Gene>;

    closed spec fn view(&self) -> Seq<Gene> {
        self.genes@
    }
}

impl Genome {
    /// All structural invariants hold of this genome.
    pub open spec fn wf(self) -> bool {
        genome_wf(self@)
    }

    /// Creates a new genome holding one input neuron per input channel and
    /// one output neuron per output channel, and nothing else.
    pub fn new(inputs: u16, outputs: u16) -> (g: Genome)
        requires
            inputs + outputs <= 256,
        ensures
            g@.len() == inputs + outputs,
            forall|t: int| 0 <= t < inputs ==> g@[t] == input_gene(t),
            forall|t: int|
                0 <= t < outputs ==> g@[inputs + t] == output_gene(outputs as int, t),
            g.wf(),
    {
        let mut genes: Vec<Gene> = Vec::new();
        let mut i: u16 = 0;
        while i < inputs
            invariant
                i <= inputs,
                inputs + outputs <= 256,
                genes@.len() == i,
                forall|t: int| 0 <= t < i ==> genes@[t] == input_gene(t),
            decreases inputs - i,
        {
            genes.push(
                Gene::Input { id: NeuronId { seed: i as u8, pos: 0 }, children: 0, bias_bits: 0 },
            );
            i = i + 1;
        }
        let mut k: u16 = 0;
        while k < outputs
            invariant
                k <= outputs,
                inputs + outputs <= 256,
                genes@.len() == inputs + k,
                forall|t: int| 0 <= t < inputs ==> genes@[t] == input_gene(t),
                forall|t: int| 0 <= t < k ==> genes@[inputs + t] == output_gene(outputs as int, t),
            decreases outputs - k,
        {
            let seed16: u16 = 256 - outputs + k;
            genes.push(
                Gene::Output { id: NeuronId { seed: seed16 as u8, pos: 0 }, children: 0,
                    bias_bits: 0 },
            );
            k = k + 1;
        }
        let g = Genome { genes };
        proof {
            lemma_new_wf(g@, inputs as int, outputs as int);
        }
        g
    }

    /// Read-only access to the ordered gene records, for consumers such as
    /// a phenotype builder or an inspection view.
    pub fn genes(&self) -> (r: &Vec<Gene>)
        ensures
            r@ == self@,
    {
        &self.genes
    }
}

/// The neuron `id` is present and may source synapses: it is an input or
/// hidden neuron.
pub open spec fn valid_source(s: Seq<Gene>, id: NeuronId) -> bool {
    exists|n: Gene|
        #[trigger] s.contains(n) && n.is_neuron() && !(n is Output) && n.own_id() == id
}

/// The neuron `t` is a legal synapse destination for `src`: a different,
/// present neuron, not yet connected from `src`, sitting strictly deeper
/// than `src` or being an output neuron.  This is the sole acyclicity
/// gate.
pub open spec fn valid_target(s: Seq<Gene>, src: NeuronId, t: NeuronId) -> bool {
    &&& t != src
    &&& !has_synapse(s, src, spec_encode_id(t))
    &&& exists|n: Gene|
        #[trigger] s.contains(n) && n.is_neuron() && n.own_id() == t && (n is Output
            || spec_height(t.pos as int) > spec_height(src.pos as int))
}

/// `s1` is `s0` with exactly one new enabled synapse `from -> to` of
/// default weight, still ordered.
pub open spec fn added_synapse(s0: Seq<Gene>, s1: Seq<Gene>, from: NeuronId, to: NeuronId) -> bool {
    let sg = Gene::Synapse { source: from, dest: spec_encode_id(to),
        status: SynapseStatus::Enabled, weight_bits: 0 };
    &&& s1.len() == s0.len() + 1
    &&& s1.contains(sg)
    &&& forall|x: Gene| x != sg ==> (#[trigger] s1.contains(x) <==> s0.contains(x))
    &&& sorted_by_key(s1)
}

/// The identifier of the next child the neuron gene `g` would grow: the
/// left slot `2p + 1` when no child is attached yet, the right slot
/// `2p + 2` when one is.
pub open spec fn growth_child_id(g: Gene) -> NeuronId {
    NeuronId { seed: g.own_id().seed, pos: (2 * g.own_id().pos + 1 + g.child_count()) as u8 }
}

/// The position `c` is free to receive a new hidden neuron: no neuron sits
/// there, and no stale hidden child occupies either of its own child
/// slots (which would desynchronise the new neuron's growth counter).
pub open spec fn child_fresh(s: Seq<Gene>, c: NeuronId) -> bool {
    &&& !has_neuron(s, c)
    &&& !has_hidden_at(s, c.seed, 2 * (c.pos as int) + 1)
    &&& !has_hidden_at(s, c.seed, 2 * (c.pos as int) + 2)
}

/// The neuron gene `g` may sprout a child: an input or hidden neuron with
/// a spare child slot, low enough in its tree that the child position
/// still fits in a byte, and with a free child position.
pub open spec fn eligible_parent(s: Seq<Gene>, g: Gene) -> bool {
    &&& g.is_neuron()
    &&& !(g is Output)
    &&& g.child_count() < 2
    &&& g.own_id().pos <= 126
    &&& child_fresh(s, growth_child_id(g))
}

/// The pair `(p, c)` is a legal growth step: some present gene is an
/// eligible parent with identifier `p` whose next child slot is `c`.
pub open spec fn valid_growth(s: Seq<Gene>, p: NeuronId, c: NeuronId) -> bool {
    exists|g: Gene|
        #[trigger] s.contains(g) && eligible_parent(s, g) && g.own_id() == p && growth_child_id(g)
            == c
}

/// The gene record of a freshly grown hidden neuron.
pub open spec fn hidden_gene(c: NeuronId) -> Gene {
    Gene::Hidden { id: c, children: 0, bias_bits: 0 }
}

/// The gene record of the enabled default-weight synapse that links a new
/// hidden neuron to its parent.
pub open spec fn link_gene(p: NeuronId, c: NeuronId) -> Gene {
    Gene::Synapse { source: p, dest: spec_encode_id(c), status: SynapseStatus::Enabled,
        weight_bits: 0 }
}

/// `s1` is `s0` after growing child `c` under parent `p`: the parent's
/// growth counter is up by one, a hidden neuron `c` and an enabled synapse
/// `p -> c` are present, everything else is untouched, and the order is
/// kept.
pub open spec fn grown(s0: Seq<Gene>, s1: Seq<Gene>, p: NeuronId, c: NeuronId) -> bool {
    let pg = neuron_gene(s0, p);
    let pg2 = pg.with_children((pg.child_count() + 1) as u8);
    &&& s1.len() == s0.len() + 2
    &&& s1.contains(pg2)
    &&& s1.contains(hidden_gene(c))
    &&& s1.contains(link_gene(p, c))
    &&& !s1.contains(pg)
    &&& forall|x: Gene|
        x != pg && x != pg2 && x != hidden_gene(c) && x != link_gene(p, c) ==> (#[trigger]
        s1.contains(x) <==> s0.contains(x))
    &&& sorted_by_key(s1)
}

impl Genome {
    /// First position whose gene key exceeds `key`; the genes are ordered,
    /// so everything before it keys at most `key`.
    fn find_insert_pos(&self, key: u16) -> (i: usize)
        requires
            sorted_by_key(self@),
        ensures
            i <= self@.len(),
            forall|j: int| 0 <= j < i ==> self@[j].sort_key() <= key,
            forall|j: int| i <= j < self@.len() ==> key < self@[j].sort_key(),
    {
        let n = self.genes.len();
        let mut i: usize = 0;
        while i < n && encode_id(self.genes[i].key_id()) <= key
            invariant
                n == self@.len(),
                i <= n,
                sorted_by_key(self@),
                forall|j: int| 0 <= j < i ==> self@[j].sort_key() <= key,
            decreases n - i,
        {
            i = i + 1;
        }
        proof {
            if i < n {
                assert forall|j: int| i <= j < self@.len() implies key < self@[j].sort_key() by {
                    if i < j {
                        assert(self@[i as int].sort_key() <= self@[j].sort_key());
                    }
                }
            }
        }
        i
    }

    /// Inserts a gene at its ordered position and reports that position.
    fn insert_gene(&mut self, g: Gene) -> (i: usize)
        requires
            sorted_by_key(old(self)@),
        ensures
            i <= old(self)@.len(),
            final(self)@ == old(self)@.insert(i as int, g),
            forall|j: int| 0 <= j < i ==> old(self)@[j].sort_key() <= g.sort_key(),
            forall|j: int| i <= j < old(self)@.len() ==> g.sort_key() < old(self)@[j].sort_key(),
            sorted_by_key(final(self)@),
    {
        let key = encode_id(g.key_id());
        let i = self.find_insert_pos(key);
        self.genes.insert(i, g);
        proof {
            let s = old(self)@;
            s.insert_ensures(i as int, g);
            assert forall|a: int, b: int| 0 <= a < b < self@.len() implies #[trigger]
                self@[a].sort_key() <= #[trigger] self@[b].sort_key() by {
                let ii = i as int;
                if a < ii && b > ii {
                    assert(self@[b] == s[b - 1]);
                } else if a == ii && b > ii {
                    assert(self@[b] == s[b - 1]);
                } else if a > ii {
                    assert(self@[a] == s[a - 1]);
                    assert(self@[b] == s[b - 1]);
                }
            }
        }
        i
    }

    /// Index of the neuron gene carrying `id`, if one is present.
    fn find_neuron_index(&self, id: NeuronId) -> (r: Option<usize>)
        ensures
            match r {
                Some(i) => i < self@.len() && self@[i as int].is_neuron() && self@[i as int].own_id()
                    == id,
                None => !has_neuron(self@, id),
            },
    {
        let n = self.genes.len();
        let mut i: usize = 0;
        while i < n
            invariant
                i <= n,
                n == self@.len(),
                forall|j: int| 0 <= j < i ==> !(self@[j].is_neuron() && self@[j].own_id() == id),
            decreases n - i,
        {
            let g = &self.genes[i];
            let is_syn = match g {
                Gene::Synapse { .. } => true,
                _ => false,
            };
            if !is_syn && g.key_id() == id {
                return Some(i);
            }
            i = i + 1;
        }
        proof {
            if has_neuron(self@, id) {
                let g = choose|g: Gene|
                    #[trigger] self@.contains(g) && g.is_neuron() && g.own_id() == id;
                let j = choose|j: int| 0 <= j < self@.len() && self@[j] == g;
                assert(!(self@[j].is_neuron() && self@[j].own_id() == id));
            }
        }
        None
    }

    /// Whether a synapse from `from_id` to `to_id` is present.
    pub fn are_connected(&self, from_id: NeuronId, to_id: NeuronId) -> (r: bool)
        ensures
            r == has_synapse(self@, from_id, spec_encode_id(to_id)),
    {
        match self.find_synapse_index(from_id, encode_id(to_id)) {
            Some(i) => {
                proof {
                    assert(self@.contains(self@[i as int]));
                }
                true
            },
            None => false,
        }
    }

    /// Index of the neuron gene carrying `id`, if one is present, for
    /// consumers resolving decoded synapse destinations.
    pub fn find_neuron(&self, id: NeuronId) -> (r: Option<usize>)
        ensures
            match r {
                Some(i) => i < self@.len() && self@[i as int].is_neuron() && self@[i as int].own_id()
                    == id,
                None => !has_neuron(self@, id),
            },
    {
        self.find_neuron_index(id)
    }

    /// Index of the synapse gene from `from` to the packed destination
    /// `dst`, if one is present.
    fn find_synapse_index(&self, from: NeuronId, dst: u16) -> (r: Option<usize>)
        ensures
            match r {
                Some(i) => i < self@.len() && self@[i as int] is Synapse && self@[i as int].own_id()
                    == from && self@[i as int].dest_enc() == dst,
                None => !has_synapse(self@, from, dst),
            },
    {
        let n = self.genes.len();
        let mut i: usize = 0;
        while i < n
            invariant
                i <= n,
                n == self@.len(),
                forall|j: int|
                    0 <= j < i ==> !(self@[j] is Synapse && self@[j].own_id() == from
                        && self@[j].dest_enc() == dst),
            decreases n - i,
        {
            let g = &self.genes[i];
            match g {
                Gene::Synapse { source, dest, .. } => {
                    if *source == from && *dest == dst {
                        return Some(i);
                    }
                },
                _ => {},
            }
            i = i + 1;
        }
        proof {
            if has_synapse(self@, from, dst) {
                let g = choose|g: Gene|
                    #[trigger] self@.contains(g) && g is Synapse && g.own_id() == from
                        && g.dest_enc() == dst;
                let j = choose|j: int| 0 <= j < self@.len() && self@[j] == g;
                assert(!(self@[j] is Synapse && self@[j].own_id() == from && self@[j].dest_enc()
                    == dst));
            }
        }
        None
    }

    /// Adds an enabled synapse `from -> to` after checking every legality
    /// condition; reports whether the edge was created.  The checks make
    /// the height rule and edge uniqueness impossible to bypass.
    #[verifier::rlimit(60)]
    pub fn add_synapse(&mut self, from: NeuronId, to: NeuronId) -> (r: bool)
        requires
            old(self).wf(),
        ensures
            final(self).wf(),
            r == (valid_source(old(self)@, from) && valid_target(old(self)@, from, to)),
            !r ==> final(self)@ == old(self)@,
            r ==> added_synapse(old(self)@, final(self)@, from, to),
    {
        let src_idx = match self.find_neuron_index(from) {
            Some(i) => i,
            None => {
                proof {
                    if valid_source(self@, from) {
                        let n = choose|n: Gene|
                            #[trigger] self@.contains(n) && n.is_neuron() && !(n is Output)
                                && n.own_id() == from;
                    }
                }
                return false;
            },
        };
        let src_gene = self.genes[src_idx];
        proof {
            assert(self@.contains(self@[src_idx as int]));
        }
        let src_is_output = match src_gene {
            Gene::Output { .. } => true,
            _ => false,
        };
        if src_is_output {
            proof {
                if valid_source(self@, from) {
                    let n = choose|n: Gene|
                        #[trigger] self@.contains(n) && n.is_neuron() && !(n is Output)
                            && n.own_id() == from;
                    assert(n == src_gene);
                }
            }
            return false;
        }
        if to == from {
            return false;
        }
        let dst_idx = match self.find_neuron_index(to) {
            Some(i) => i,
            None => {
                proof {
                    if valid_target(self@, from, to) {
                        let n = choose|n: Gene|
                            #[trigger] self@.contains(n) && n.is_neuron() && n.own_id() == to && (
                            n is Output || spec_height(to.pos as int) > spec_height(
                                from.pos as int,
                            ));
                    }
                }
                return false;
            },
        };
        let dst_gene = self.genes[dst_idx];
        proof {
            assert(self@.contains(self@[dst_idx as int]));
        }
        let dst_is_output = match dst_gene {
            Gene::Output { .. } => true,
            _ => false,
        };
        let height_ok = get_neuron_height(to.pos) > get_neuron_height(from.pos);
        if !dst_is_output && !height_ok {
            proof {
                if valid_target(self@, from, to) {
                    let n = choose|n: Gene|
                        #[trigger] self@.contains(n) && n.is_neuron() && n.own_id() == to && (
                        n is Output || spec_height(to.pos as int) > spec_height(from.pos as int));
                    assert(n == dst_gene);
                }
            }
            return false;
        }
        let dst_key = encode_id(to);
        match self.find_synapse_index(from, dst_key) {
            Some(i) => {
                proof {
                    assert(self@.contains(self@[i as int]));
                }
                return false;
            },
            None => {},
        }
        let sg = Gene::Synapse { source: from, dest: dst_key, status: SynapseStatus::Enabled,
            weight_bits: 0 };
        proof {
            crate::codec::lemma_codec_round_trip(from);
            crate::codec::lemma_codec_round_trip(to);
            assert(valid_source(self@, from)) by {
                assert(self@.contains(src_gene) && src_gene.is_neuron() && !(src_gene is Output)
                    && src_gene.own_id() == from);
            }
            assert(valid_target(self@, from, to)) by {
                assert(self@.contains(dst_gene) && dst_gene.is_neuron() && dst_gene.own_id()
                    == to);
            }
        }
        let ghost s0 = self@;
        let i = self.insert_gene(sg);
        proof {
            assert(edge_source_ok(s0, sg)) by {
                assert(s0.contains(src_gene));
            }
            assert(edge_dest_ok(s0, sg)) by {
                assert(s0.contains(dst_gene) && spec_encode_id(dst_gene.own_id()) == sg.dest_enc());
            }
            crate::invariants::lemma_wf_insert_synapse(s0, i as int, sg);
            crate::invariants::lemma_insert_contains(s0, i as int, sg);
        }
        true
    }
}

/// A freshly created genome (inputs at the bottom of the seed range,
/// outputs at the top, nothing else) satisfies every invariant.
proof fn lemma_new_wf(s: Seq<Gene>, inputs: int, outputs: int)
    requires
        0 <= inputs,
        0 <= outputs,
        inputs + outputs <= 256,
        s.len() == inputs + outputs,
        forall|t: int| 0 <= t < inputs ==> s[t] == input_gene(t),
        forall|t: int| 0 <= t < outputs ==> s[inputs + t] == output_gene(outputs, t),
    ensures
        genome_wf(s),
{
    assert forall|g: Gene| s.contains(g) implies (exists|t: int|
        0 <= t < inputs && g == input_gene(t)) || (exists|t: int|
        0 <= t < outputs && g == output_gene(outputs, t)) by {
        let idx = choose|idx: int| 0 <= idx < s.len() && s[idx] == g;
        if idx < inputs {
            assert(g == input_gene(idx));
        } else {
            assert(g == output_gene(outputs, idx - inputs));
        }
    }
    assert(sorted_by_key(s)) by {
        assert forall|i: int, j: int| 0 <= i < j < s.len() implies #[trigger] s[i].sort_key()
            <= #[trigger] s[j].sort_key() by {
            if i < inputs && j >= inputs {
                assert(s[i] == input_gene(i));
                assert(s[j] == output_gene(outputs, j - inputs));
            } else if i >= inputs {
                assert(s[i] == output_gene(outputs, i - inputs));
                assert(s[j] == output_gene(outputs, j - inputs));
            } else {
                assert(s[i] == input_gene(i));
                assert(s[j] == input_gene(j));
            }
        }
    }
    assert(no_dup_genes(s)) by {
        assert forall|i: int, j: int| 0 <= i < j < s.len() implies #[trigger] s[i] != #[trigger]
            s[j] by {
            assert(s[i].sort_key() < s[j].sort_key()) by {
                if i < inputs && j >= inputs {
                    assert(s[i] == input_gene(i));
                    assert(s[j] == output_gene(outputs, j - inputs));
                } else if i >= inputs {
                    assert(s[i] == output_gene(outputs, i - inputs));
                    assert(s[j] == output_gene(outputs, j - inputs));
                } else {
                    assert(s[i] == input_gene(i));
                    assert(s[j] == input_gene(j));
                }
            }
        }
    }
    assert(unique_neurons(s)) by {
        assert forall|g1: Gene, g2: Gene|
            #[trigger] s.contains(g1) && #[trigger] s.contains(g2) && g1.is_neuron()
                && g2.is_neuron() && g1.own_id() == g2.own_id() implies g1 == g2 by {}
    }
    assert(counters_ok(s)) by {
        assert forall|g: Gene| #[trigger] s.contains(g) && g.is_neuron() implies g.child_count()
            as int == child_slot_count(s, g.own_id()) by {
            assert(!has_hidden_at(s, g.own_id().seed, 2 * (g.own_id().pos as int) + 1));
            assert(!has_hidden_at(s, g.own_id().seed, 2 * (g.own_id().pos as int) + 2));
        }
    }
}


/// Growing a child under an eligible parent — bumping the parent's
/// counter, inserting the hidden child and inserting the linking synapse,
/// each at an ordered position — preserves every invariant and produces
/// exactly the [`grown`] relation.
#[verifier::rlimit(100)]
proof fn lemma_wf_grow(
    s0: Seq<Gene>,
    s1: Seq<Gene>,
    s2: Seq<Gene>,
    s3: Seq<Gene>,
    pi: int,
    i1: int,
    i2: int,
    p: NeuronId,
    c: NeuronId,
)
    requires
        genome_wf(s0),
        0 <= pi < s0.len(),
        s0[pi].is_neuron(),
        !(s0[pi] is Output),
        s0[pi].own_id() == p,
        s0[pi].child_count() < 2,
        p.pos <= 126,
        c == growth_child_id(s0[pi]),
        child_fresh(s0, c),
        s1 == s0.update(pi, s0[pi].with_children((s0[pi].child_count() + 1) as u8)),
        0 <= i1 <= s1.len(),
        s2 == s1.insert(i1, hidden_gene(c)),
        forall|j: int| 0 <= j < i1 ==> s1[j].sort_key() <= hidden_gene(c).sort_key(),
        forall|j: int| i1 <= j < s1.len() ==> hidden_gene(c).sort_key() <= s1[j].sort_key(),
        0 <= i2 <= s2.len(),
        s3 == s2.insert(i2, link_gene(p, c)),
        forall|j: int| 0 <= j < i2 ==> s2[j].sort_key() <= link_gene(p, c).sort_key(),
        forall|j: int| i2 <= j < s2.len() ==> link_gene(p, c).sort_key() <= s2[j].sort_key(),
    ensures
        genome_wf(s3),
        grown(s0, s3, p, c),
{
    let pg = s0[pi];
    let pg2 = pg.with_children((pg.child_count() + 1) as u8);
    let cg = hidden_gene(c);
    let sg = link_gene(p, c);
    assert(s0.contains(pg));
    assert(c.pos == 2 * p.pos + 1 + pg.child_count());
    assert(c.pos >= 1);
    assert(c != p);
    assert(c.seed == p.seed);
    crate::codec::lemma_codec_round_trip(p);
    crate::codec::lemma_codec_round_trip(c);
    assert(neuron_gene(s0, p) == pg) by {
        let w = neuron_gene(s0, p);
        assert(s0.contains(pg) && pg.is_neuron() && pg.own_id() == p);
    }

    // The three new gene records are absent from the starting state.
    assert(!s0.contains(pg2));
    assert(!s0.contains(cg)) by {
        if s0.contains(cg) {
            assert(has_neuron(s0, c));
        }
    }
    assert forall|x: Gene| s0.contains(x) && x is Synapse implies x.dest_enc() != spec_encode_id(
        c,
    ) by {
        if x.dest_enc() == spec_encode_id(c) {
            let n = choose|n: Gene|
                #[trigger] s0.contains(n) && n.is_neuron() && spec_encode_id(n.own_id())
                    == x.dest_enc() && (n is Output || spec_height(n.own_id().pos as int)
                    > spec_height(x.own_id().pos as int));
            crate::codec::lemma_codec_round_trip(n.own_id());
            assert(n.own_id() == c);
            assert(has_neuron(s0, c));
        }
    }
    assert(!s0.contains(sg));

    // Membership characterisations of the three intermediate states.
    crate::invariants::lemma_update_contains(s0, pi, pg2);
    assert(sorted_by_key(s1));
    assert(!s1.contains(cg)) by {
        if s1.contains(cg) {
            assert(s0.contains(cg));
        }
    }
    crate::invariants::lemma_insert_contains(s1, i1, cg);
    crate::invariants::lemma_insert_keeps_order(s1, i1, cg);
    assert(!s2.contains(sg)) by {
        if s2.contains(sg) {
            assert(s0.contains(sg));
        }
    }
    crate::invariants::lemma_insert_contains(s2, i2, sg);
    crate::invariants::lemma_insert_keeps_order(s2, i2, sg);
    assert forall|x: Gene| #[trigger] s3.contains(x) <==> ((s0.contains(x) && x != pg) || x == pg2
        || x == cg || x == sg) by {}

    // Hidden occupancy: exactly the old occupancy plus the slot of `c`.
    assert forall|sd: u8, ps: int| #[trigger] has_hidden_at(s3, sd, ps) == (has_hidden_at(
        s0,
        sd,
        ps,
    ) || (sd == c.seed && ps == c.pos)) by {
        if has_hidden_at(s3, sd, ps) {
            let h = choose|h: Gene|
                #[trigger] s3.contains(h) && h is Hidden && h.own_id().seed == sd
                    && h.own_id().pos == ps;
            if h == pg2 {
                assert(pg is Hidden);
                assert(has_hidden_at(s0, sd, ps));
            } else if h != cg {
                assert(s0.contains(h));
                assert(has_hidden_at(s0, sd, ps));
            }
        }
        if has_hidden_at(s0, sd, ps) {
            let h = choose|h: Gene|
                #[trigger] s0.contains(h) && h is Hidden && h.own_id().seed == sd
                    && h.own_id().pos == ps;
            if h == pg {
                assert(s3.contains(pg2) && pg2 is Hidden && pg2.own_id() == pg.own_id());
            } else {
                assert(s3.contains(h));
            }
        }
        if sd == c.seed && ps == c.pos {
            assert(s3.contains(cg) && cg is Hidden);
        }
    }

    assert(unique_neurons(s3)) by {
        assert forall|g1: Gene, g2: Gene|
            #[trigger] s3.contains(g1) && #[trigger] s3.contains(g2) && g1.is_neuron()
                && g2.is_neuron() && g1.own_id() == g2.own_id() implies g1 == g2 by {
            if g1 != g2 {
                if g1 == pg2 && s0.contains(g2) && g2 != pg {
                    assert(g2.own_id() == p);
                    assert(g2 == pg);
                } else if g2 == pg2 && s0.contains(g1) && g1 != pg {
                    assert(g1.own_id() == p);
                    assert(g1 == pg);
                } else if g1 == cg && s0.contains(g2) && g2 != pg {
                    assert(has_neuron(s0, c));
                } else if g2 == cg && s0.contains(g1) && g1 != pg {
                    assert(has_neuron(s0, c));
                }
            }
        }
    }

    assert(unique_edges(s3)) by {
        assert forall|g1: Gene, g2: Gene|
            #[trigger] s3.contains(g1) && #[trigger] s3.contains(g2) && g1 is Synapse
                && g2 is Synapse && g1.own_id() == g2.own_id() && g1.dest_enc()
                == g2.dest_enc() implies g1 == g2 by {
            if g1 == sg && g2 != sg {
                assert(s0.contains(g2));
            } else if g2 == sg && g1 != sg {
                assert(s0.contains(g1));
            }
        }
    }

    assert(no_self_loops(s3)) by {
        assert(spec_encode_id(c) != spec_encode_id(p));
    }

    assert(edges_ok(s3)) by {
        assert forall|x: Gene| #[trigger] s3.contains(x) && x is Synapse implies edge_source_ok(
            s3,
            x,
        ) && edge_dest_ok(s3, x) by {
            if x == sg {
                assert(s3.contains(pg2) && pg2.is_neuron() && !(pg2 is Output) && pg2.own_id()
                    == p);
                assert(2 * (p.pos as int) + 2 <= 254);
                crate::geometry::lemma_height_of_children(p.pos as int);
                assert(spec_height(c.pos as int) > spec_height(p.pos as int));
                assert(s3.contains(cg) && cg.is_neuron() && spec_encode_id(cg.own_id())
                    == sg.dest_enc());
            } else {
                assert(s0.contains(x));
                let n1 = choose|n: Gene|
                    #[trigger] s0.contains(n) && n.is_neuron() && !(n is Output) && n.own_id()
                        == x.own_id();
                if n1 == pg {
                    assert(s3.contains(pg2) && pg2.is_neuron() && !(pg2 is Output)
                        && pg2.own_id() == x.own_id());
                } else {
                    assert(s3.contains(n1));
                }
                let n2 = choose|n: Gene|
                    #[trigger] s0.contains(n) && n.is_neuron() && spec_encode_id(n.own_id())
                        == x.dest_enc() && (n is Output || spec_height(n.own_id().pos as int)
                        > spec_height(x.own_id().pos as int));
                if n2 == pg {
                    assert(s3.contains(pg2) && pg2.is_neuron() && spec_encode_id(pg2.own_id())
                        == x.dest_enc());
                } else {
                    assert(s3.contains(n2));
                }
            }
        }
    }

    assert(counters_ok(s3)) by {
        assert forall|x: Gene| #[trigger] s3.contains(x) && x.is_neuron() implies x.child_count()
            as int == child_slot_count(s3, x.own_id()) by {
            let xi = x.own_id();
            if x == pg2 {
                assert(!has_hidden_at(s0, c.seed, c.pos as int)) by {
                    if has_hidden_at(s0, c.seed, c.pos as int) {
                        let h = choose|h: Gene|
                            #[trigger] s0.contains(h) && h is Hidden && h.own_id().seed == c.seed
                                && h.own_id().pos == c.pos as int;
                        assert(h.own_id() == c);
                        assert(has_neuron(s0, c));
                    }
                }
                if pg.child_count() == 0 {
                    assert(c.pos == 2 * p.pos + 1);
                    assert(!has_hidden_at(s0, p.seed, 2 * (p.pos as int) + 1));
                    assert(!has_hidden_at(s0, p.seed, 2 * (p.pos as int) + 2));
                    assert(has_hidden_at(s3, p.seed, 2 * (p.pos as int) + 1));
                    assert(!has_hidden_at(s3, p.seed, 2 * (p.pos as int) + 2));
                } else {
                    assert(c.pos == 2 * p.pos + 2);
                    assert(!has_hidden_at(s0, p.seed, 2 * (p.pos as int) + 2));
                    assert(has_hidden_at(s0, p.seed, 2 * (p.pos as int) + 1));
                    assert(has_hidden_at(s3, p.seed, 2 * (p.pos as int) + 1));
                    assert(has_hidden_at(s3, p.seed, 2 * (p.pos as int) + 2));
                }
            } else if x == cg {
                assert(!has_hidden_at(s3, c.seed, 2 * (c.pos as int) + 1));
                assert(!has_hidden_at(s3, c.seed, 2 * (c.pos as int) + 2));
            } else {
                assert(s0.contains(x) && x != pg);
                assert(x.child_count() as int == child_slot_count(s0, xi));
                assert(!(xi.seed == c.seed && 2 * (xi.pos as int) + 1 == c.pos as int)) by {
                    if xi.seed == c.seed && 2 * (xi.pos as int) + 1 == c.pos as int {
                        assert(xi.pos == p.pos);
                        assert(xi == p);
                        assert(x == pg);
                    }
                }
                assert(!(xi.seed == c.seed && 2 * (xi.pos as int) + 2 == c.pos as int)) by {
                    if xi.seed == c.seed && 2 * (xi.pos as int) + 2 == c.pos as int {
                        assert(xi.pos == p.pos);
                        assert(xi == p);
                        assert(x == pg);
                    }
                }
                assert(has_hidden_at(s3, xi.seed, 2 * (xi.pos as int) + 1) == has_hidden_at(
                    s0,
                    xi.seed,
                    2 * (xi.pos as int) + 1,
                ));
                assert(has_hidden_at(s3, xi.seed, 2 * (xi.pos as int) + 2) == has_hidden_at(
                    s0,
                    xi.seed,
                    2 * (xi.pos as int) + 2,
                ));
            }
        }
    }

    assert(hidden_connected(s3)) by {
        assert forall|x: Gene| #[trigger] s3.contains(x) && x is Hidden implies touches_any(
            s3,
            x.own_id(),
        ) by {
            if x == cg {
                assert(s3.contains(sg) && touches(sg, c));
            } else if x == pg2 {
                assert(pg is Hidden);
                let w = choose|w: Gene| #[trigger] s0.contains(w) && touches(w, p);
                assert(w is Synapse);
                assert(s3.contains(w) && touches(w, pg2.own_id()));
            } else {
                assert(s0.contains(x));
                let w = choose|w: Gene| #[trigger] s0.contains(w) && touches(w, x.own_id());
                assert(w is Synapse);
                assert(s3.contains(w));
            }
        }
    }

    assert(parents_ok(s3)) by {
        assert forall|g: Gene, n: Gene|
            #[trigger] s3.contains(g) && #[trigger] s3.contains(n) && g is Hidden && n.is_neuron()
                && n.own_id() == tree_parent(g.own_id()) implies !(n is Output) by {
            if n is Output {
                assert(n != pg2 && n != cg && n != sg);
                assert(s0.contains(n) && n != pg);
                if g == cg {
                    assert(tree_parent(c) == p);
                    assert(n.own_id() == p);
                    assert(n == pg);
                } else if g == pg2 {
                    assert(pg is Hidden);
                    assert(s0.contains(pg) && s0.contains(n));
                } else {
                    assert(s0.contains(g));
                }
            }
        }
    }

    assert(grown(s0, s3, p, c)) by {
        assert(s3.contains(pg2));
        assert(s3.contains(cg));
        assert(s3.contains(sg));
        assert(!s3.contains(pg));
    }
}


/// If the unique neuron gene carrying `parent` is not an eligible growth
/// parent, then no growth step from `parent` is legal at all.
proof fn lemma_no_growth_from_ineligible(s: Seq<Gene>, parent: NeuronId, pg: Gene)
    requires
        genome_wf(s),
        s.contains(pg),
        pg.is_neuron(),
        pg.own_id() == parent,
        !eligible_parent(s, pg),
    ensures
        forall|c: NeuronId| !valid_growth(s, parent, c),
{
    assert forall|c: NeuronId| !valid_growth(s, parent, c) by {
        if valid_growth(s, parent, c) {
            let g = choose|g: Gene|
                #[trigger] s.contains(g) && eligible_parent(s, g) && g.own_id() == parent
                    && growth_child_id(g) == c;
            assert(g == pg);
        }
    }
}

impl Genome {
    /// Whether a hidden neuron occupies the (possibly out-of-range) tree
    /// position `pos` of tree `seed`.
    fn has_hidden_in_slot(&self, seed: u8, pos: u16) -> (r: bool)
        ensures
            r == has_hidden_at(self@, seed, pos as int),
    {
        let n = self.genes.len();
        let mut i: usize = 0;
        while i < n
            invariant
                i <= n,
                n == self@.len(),
                forall|j: int|
                    0 <= j < i ==> !(self@[j] is Hidden && self@[j].own_id().seed == seed
                        && self@[j].own_id().pos == pos as int),
            decreases n - i,
        {
            match &self.genes[i] {
                Gene::Hidden { id, .. } => {
                    if id.seed == seed && (id.pos as u16) == pos {
                        proof {
                            assert(self@.contains(self@[i as int]));
                        }
                        return true;
                    }
                },
                _ => {},
            }
            i = i + 1;
        }
        proof {
            if has_hidden_at(self@, seed, pos as int) {
                let g = choose|g: Gene|
                    #[trigger] self@.contains(g) && g is Hidden && g.own_id().seed == seed
                        && g.own_id().pos == pos as int;
                let j = choose|j: int| 0 <= j < self@.len() && self@[j] == g;
                assert(!(self@[j] is Hidden && self@[j].own_id().seed == seed
                    && self@[j].own_id().pos == pos as int));
            }
        }
        false
    }

    /// Commits one growth step: bumps the parent's counter, inserts the
    /// hidden child and inserts the enabled synapse linking the two, each
    /// at its ordered position.
    fn apply_growth(&mut self, p: NeuronId, c: NeuronId)
        requires
            old(self).wf(),
            valid_growth(old(self)@, p, c),
        ensures
            final(self).wf(),
            grown(old(self)@, final(self)@, p, c),
    {
        let ghost s0 = self@;
        proof {
            let gw = choose|g: Gene|
                #[trigger] s0.contains(g) && eligible_parent(s0, g) && g.own_id() == p
                    && growth_child_id(g) == c;
            assert(has_neuron(s0, p));
        }
        let pi = match self.find_neuron_index(p) {
            Some(i) => i,
            None => {
                proof {
                    assert(false);
                }
                vstd::pervasive::unreached()
            },
        };
        let pg = self.genes[pi];
        proof {
            assert(s0.contains(pg));
            let gw = choose|g: Gene|
                #[trigger] s0.contains(g) && eligible_parent(s0, g) && g.own_id() == p
                    && growth_child_id(g) == c;
            assert(pg == gw);
        }
        let bumped = match pg {
            Gene::Input { id, children, bias_bits } => Gene::Input { id, children: children + 1,
                bias_bits },
            Gene::Hidden { id, children, bias_bits } => Gene::Hidden { id, children: children + 1,
                bias_bits },
            _ => pg,
        };
        proof {
            assert(bumped == pg.with_children((pg.child_count() + 1) as u8));
            assert(!s0.contains(bumped)) by {
                if s0.contains(bumped) {
                    assert(bumped == pg);
                }
            }
            crate::invariants::lemma_update_contains(s0, pi as int, bumped);
        }
        self.genes[pi] = bumped;
        let ghost s1 = self@;
        let i1 = self.insert_gene(Gene::Hidden { id: c, children: 0, bias_bits: 0 });
        let ghost s2 = self@;
        let i2 = self.insert_gene(
            Gene::Synapse { source: p, dest: encode_id(c), status: SynapseStatus::Enabled,
                weight_bits: 0 },
        );
        proof {
            lemma_wf_grow(s0, s1, s2, self@, pi as int, i1 as int, i2 as int, p, c);
        }
    }

    /// Grows the next free child of `parent` if `parent` is currently an
    /// eligible growth source, linking the new hidden neuron to it with an
    /// enabled synapse; reports the new child's identifier.
    pub fn grow_child(&mut self, parent: NeuronId) -> (r: Option<NeuronId>)
        requires
            old(self).wf(),
        ensures
            final(self).wf(),
            match r {
                Some(c) => valid_growth(old(self)@, parent, c) && grown(
                    old(self)@,
                    final(self)@,
                    parent,
                    c,
                ),
                None => final(self)@ == old(self)@ && (forall|c: NeuronId|
                    !valid_growth(old(self)@, parent, c)),
            },
    {
        let ghost s0 = self@;
        proof {
            assert forall|c: NeuronId| valid_growth(s0, parent, c) implies has_neuron(
                s0,
                parent,
            ) by {
                let g = choose|g: Gene|
                    #[trigger] s0.contains(g) && eligible_parent(s0, g) && g.own_id() == parent
                        && growth_child_id(g) == c;
            }
        }
        let pi = match self.find_neuron_index(parent) {
            Some(i) => i,
            None => {
                return None;
            },
        };
        let pg = self.genes[pi];
        proof {
            assert(s0.contains(pg));
            assert forall|c: NeuronId| valid_growth(s0, parent, c) implies eligible_parent(
                s0,
                pg,
            ) && c == growth_child_id(pg) by {
                let g = choose|g: Gene|
                    #[trigger] s0.contains(g) && eligible_parent(s0, g) && g.own_id() == parent
                        && growth_child_id(g) == c;
                assert(g == pg);
            }
        }
        let (children, is_growable) = match pg {
            Gene::Input { children, .. } => (children, true),
            Gene::Hidden { children, .. } => (children, true),
            _ => (0, false),
        };
        if !is_growable || children >= 2 || parent.pos > 126 {
            proof {
                assert(!eligible_parent(s0, pg));
                lemma_no_growth_from_ineligible(s0, parent, pg);
            }
            return None;
        }
        let cpos: u8 = 2 * parent.pos + 1 + children;
        let c = NeuronId { seed: parent.seed, pos: cpos };
        proof {
            assert(c == growth_child_id(pg));
        }
        match self.find_neuron_index(c) {
            Some(ci) => {
                proof {
                    assert(s0.contains(s0[ci as int]));
                    assert(has_neuron(s0, c));
                    assert(!eligible_parent(s0, pg));
                    lemma_no_growth_from_ineligible(s0, parent, pg);
                }
                return None;
            },
            None => {},
        }
        if self.has_hidden_in_slot(c.seed, 2 * (cpos as u16) + 1) {
            proof {
                assert(!eligible_parent(s0, pg));
                lemma_no_growth_from_ineligible(s0, parent, pg);
            }
            return None;
        }
        if self.has_hidden_in_slot(c.seed, 2 * (cpos as u16) + 2) {
            proof {
                assert(!eligible_parent(s0, pg));
                lemma_no_growth_from_ineligible(s0, parent, pg);
            }
            return None;
        }
        proof {
            assert(!has_neuron(s0, c)) by {
                if has_neuron(s0, c) {
                    let n = choose|n: Gene|
                        #[trigger] s0.contains(n) && n.is_neuron() && n.own_id() == c;
                    let j = choose|j: int| 0 <= j < s0.len() && s0[j] == n;
                }
            }
            assert(eligible_parent(s0, pg));
            assert(valid_growth(s0, parent, c));
        }
        self.apply_growth(parent, c);
        Some(c)
    }
}


impl Genome {
    /// Whether the gene at index `i` is currently an eligible growth
    /// parent.
    fn eligible_at(&self, i: usize) -> (r: bool)
        requires
            i < self@.len(),
        ensures
            r == eligible_parent(self@, self@[i as int]),
    {
        let g = self.genes[i];
        let (children, is_growable) = match g {
            Gene::Input { children, .. } => (children, true),
            Gene::Hidden { children, .. } => (children, true),
            _ => (0, false),
        };
        let id = g.key_id();
        if !is_growable || children >= 2 || id.pos > 126 {
            return false;
        }
        let cpos: u8 = 2 * id.pos + 1 + children;
        let c = NeuronId { seed: id.seed, pos: cpos };
        proof {
            assert(c == growth_child_id(self@[i as int]));
        }
        match self.find_neuron_index(c) {
            Some(ci) => {
                proof {
                    assert(self@.contains(self@[ci as int]));
                    assert(has_neuron(self@, c));
                }
                return false;
            },
            None => {},
        }
        if self.has_hidden_in_slot(c.seed, 2 * (cpos as u16) + 1) {
            return false;
        }
        if self.has_hidden_in_slot(c.seed, 2 * (cpos as u16) + 2) {
            return false;
        }
        true
    }

    /// Every legal growth pair `(parent, next child)`, listed shallowest
    /// parent first: one entry per eligible input or hidden neuron, in
    /// ascending order of the parent's tree height.
    pub fn get_neuron_candidates(&self) -> (r: Vec<(NeuronId, NeuronId)>)
        requires
            self.wf(),
        ensures
            forall|k: int|
                0 <= k < r@.len() ==> valid_growth(self@, #[trigger] r@[k].0, r@[k].1),
            forall|g: Gene|
                #[trigger] self@.contains(g) && eligible_parent(self@, g) ==> r@.contains(
                    (g.own_id(), growth_child_id(g)),
                ),
            forall|k1: int, k2: int|
                0 <= k1 < k2 < r@.len() ==> spec_height(#[trigger] r@[k1].0.pos as int)
                    <= spec_height(#[trigger] r@[k2].0.pos as int),
    {
        let n = self.genes.len();
        let mut out: Vec<(NeuronId, NeuronId)> = Vec::new();
        let mut h: u32 = 0;
        while h <= 6
            invariant
                self.wf(),
                n == self@.len(),
                h <= 7,
                forall|k: int|
                    0 <= k < out@.len() ==> valid_growth(self@, #[trigger] out@[k].0, out@[k].1),
                forall|k: int|
                    0 <= k < out@.len() ==> spec_height(#[trigger] out@[k].0.pos as int) < h,
                forall|k1: int, k2: int|
                    0 <= k1 < k2 < out@.len() ==> spec_height(#[trigger] out@[k1].0.pos as int)
                        <= spec_height(#[trigger] out@[k2].0.pos as int),
                forall|j: int|
                    0 <= j < n && eligible_parent(self@, #[trigger] self@[j]) && spec_height(
                        self@[j].own_id().pos as int,
                    ) < h ==> out@.contains((self@[j].own_id(), growth_child_id(self@[j]))),
            decreases 7 - h,
        {
            let mut i: usize = 0;
            while i < n
                invariant
                    self.wf(),
                    n == self@.len(),
                    h <= 6,
                    i <= n,
                    forall|k: int|
                        0 <= k < out@.len() ==> valid_growth(
                            self@,
                            #[trigger] out@[k].0,
                            out@[k].1,
                        ),
                    forall|k: int|
                        0 <= k < out@.len() ==> spec_height(#[trigger] out@[k].0.pos as int) <= h,
                    forall|k1: int, k2: int|
                        0 <= k1 < k2 < out@.len() ==> spec_height(
                            #[trigger] out@[k1].0.pos as int,
                        ) <= spec_height(#[trigger] out@[k2].0.pos as int),
                    forall|j: int|
                        0 <= j < n && eligible_parent(self@, #[trigger] self@[j]) && spec_height(
                            self@[j].own_id().pos as int,
                        ) < h ==> out@.contains((self@[j].own_id(), growth_child_id(self@[j]))),
                    forall|j: int|
                        0 <= j < i && eligible_parent(self@, #[trigger] self@[j]) && spec_height(
                            self@[j].own_id().pos as int,
                        ) == h ==> out@.contains((self@[j].own_id(), growth_child_id(self@[j]))),
                decreases n - i,
            {
                if self.eligible_at(i) {
                    let g = self.genes[i];
                    let id = g.key_id();
                    if get_neuron_height(id.pos) == h {
                        let children = match g {
                            Gene::Input { children, .. } => children,
                            Gene::Hidden { children, .. } => children,
                            _ => 0,
                        };
                        let cpos: u8 = 2 * id.pos + 1 + children;
                        let pair = (id, NeuronId { seed: id.seed, pos: cpos });
                        proof {
                            assert(self@.contains(self@[i as int]));
                            assert(pair == (self@[i as int].own_id(), growth_child_id(
                                self@[i as int],
                            )));
                        }
                        let ghost out0 = out@;
                        out.push(pair);
                        proof {
                            assert forall|x: (NeuronId, NeuronId)| out0.contains(x) implies
                                out@.contains(x) by {
                                let k = choose|k: int| 0 <= k < out0.len() && out0[k] == x;
                                assert(out@[k] == x);
                            }
                            assert(out@[out@.len() - 1] == pair);
                        }
                    }
                }
                i = i + 1;
            }
            h = h + 1;
        }
        proof {
            assert forall|g: Gene| #[trigger] self@.contains(g) && eligible_parent(
                self@,
                g,
            ) implies out@.contains((g.own_id(), growth_child_id(g))) by {
                let j = choose|j: int| 0 <= j < self@.len() && self@[j] == g;
                crate::geometry::lemma_height_bound(g.own_id().pos as int);
            }
        }
        out
    }
}


/// `s1` is `s0` after growing child `c` under parent `p` and linking `c`
/// onward to the target `t` in the same transaction: the parent's counter
/// is up by one, the hidden neuron `c`, the synapse `p -> c` and the
/// synapse `c -> t` are present, everything else is untouched, and the
/// order is kept.
pub open spec fn grown_linked(
    s0: Seq<Gene>,
    s1: Seq<Gene>,
    p: NeuronId,
    c: NeuronId,
    t: NeuronId,
) -> bool {
    let pg = neuron_gene(s0, p);
    let pg2 = pg.with_children((pg.child_count() + 1) as u8);
    &&& s1.len() == s0.len() + 3
    &&& s1.contains(pg2)
    &&& s1.contains(hidden_gene(c))
    &&& s1.contains(link_gene(p, c))
    &&& s1.contains(link_gene(c, t))
    &&& !s1.contains(pg)
    &&& forall|x: Gene|
        x != pg && x != pg2 && x != hidden_gene(c) && x != link_gene(p, c) && x != link_gene(c, t)
            ==> (#[trigger] s1.contains(x) <==> s0.contains(x))
    &&& sorted_by_key(s1)
}

/// Composition: a growth step from `s0` to `mid` followed by adding the
/// synapse `c -> t` yields exactly the [`grown_linked`] relation.
proof fn lemma_grown_then_linked(
    s0: Seq<Gene>,
    mid: Seq<Gene>,
    s1: Seq<Gene>,
    p: NeuronId,
    c: NeuronId,
    t: NeuronId,
)
    requires
        grown(s0, mid, p, c),
        added_synapse(mid, s1, c, t),
    ensures
        grown_linked(s0, s1, p, c, t),
{
    let pg = neuron_gene(s0, p);
    let pg2 = pg.with_children((pg.child_count() + 1) as u8);
    let sg2 = link_gene(c, t);
    assert(pg2 != sg2 && hidden_gene(c) != sg2 && pg != sg2);
    assert(s1.contains(pg2));
    assert(s1.contains(hidden_gene(c)));
    assert(s1.contains(link_gene(p, c))) by {
        if link_gene(p, c) != sg2 {
            assert(mid.contains(link_gene(p, c)));
        }
    }
    assert(s1.contains(sg2));
    assert(!s1.contains(pg));
    assert forall|x: Gene|
        x != pg && x != pg2 && x != hidden_gene(c) && x != link_gene(p, c) && x != sg2 implies (
    #[trigger] s1.contains(x) <==> s0.contains(x)) by {
        assert(s1.contains(x) <==> mid.contains(x));
        assert(mid.contains(x) <==> s0.contains(x));
    }
}

impl Genome {
    /// Every input or hidden neuron identifier: the neurons that may
    /// source a synapse (output neurons may receive but never source).
    pub fn get_possible_synapse_sources(&self) -> (r: Vec<NeuronId>)
        ensures
            forall|k: int| 0 <= k < r@.len() ==> valid_source(self@, #[trigger] r@[k]),
            forall|g: Gene|
                #[trigger] self@.contains(g) && g.is_neuron() && !(g is Output) ==> r@.contains(
                    g.own_id(),
                ),
    {
        let n = self.genes.len();
        let mut out: Vec<NeuronId> = Vec::new();
        let mut i: usize = 0;
        while i < n
            invariant
                i <= n,
                n == self@.len(),
                forall|k: int| 0 <= k < out@.len() ==> valid_source(self@, #[trigger] out@[k]),
                forall|j: int|
                    0 <= j < i && self@[j].is_neuron() && !(self@[j] is Output)
                        ==> out@.contains(#[trigger] self@[j].own_id()),
            decreases n - i,
        {
            let g = self.genes[i];
            let keep = match g {
                Gene::Input { .. } => true,
                Gene::Hidden { .. } => true,
                _ => false,
            };
            if keep {
                proof {
                    assert(self@.contains(self@[i as int]));
                }
                let ghost out0 = out@;
                out.push(g.key_id());
                proof {
                    assert forall|x: NeuronId| out0.contains(x) implies out@.contains(x) by {
                        let k = choose|k: int| 0 <= k < out0.len() && out0[k] == x;
                        assert(out@[k] == x);
                    }
                    assert(out@[out@.len() - 1] == self@[i as int].own_id());
                }
            }
            i = i + 1;
        }
        proof {
            assert forall|g: Gene|
                #[trigger] self@.contains(g) && g.is_neuron() && !(g is Output) implies
                out@.contains(g.own_id()) by {
                let j = choose|j: int| 0 <= j < self@.len() && self@[j] == g;
            }
        }
        out
    }

    /// Every legal synapse destination for `neuron_id`: present neurons,
    /// other than the source itself, not yet connected from it, that are
    /// outputs or sit strictly deeper in their growth tree.
    pub fn get_synapse_candidates(&self, neuron_id: NeuronId) -> (r: Vec<NeuronId>)
        ensures
            forall|k: int| 0 <= k < r@.len() ==> valid_target(self@, neuron_id, #[trigger] r@[k]),
            forall|g: Gene|
                #[trigger] self@.contains(g) && g.is_neuron() && g.own_id() != neuron_id
                    && !has_synapse(self@, neuron_id, spec_encode_id(g.own_id())) && (g is Output
                    || spec_height(g.own_id().pos as int) > spec_height(neuron_id.pos as int))
                    ==> r@.contains(g.own_id()),
    {
        let n = self.genes.len();
        let src_h = get_neuron_height(neuron_id.pos);
        let mut out: Vec<NeuronId> = Vec::new();
        let mut i: usize = 0;
        while i < n
            invariant
                i <= n,
                n == self@.len(),
                src_h == spec_height(neuron_id.pos as int),
                forall|k: int|
                    0 <= k < out@.len() ==> valid_target(self@, neuron_id, #[trigger] out@[k]),
                forall|j: int|
                    0 <= j < i && self@[j].is_neuron() && (#[trigger] self@[j].own_id())
                        != neuron_id && !has_synapse(
                        self@,
                        neuron_id,
                        spec_encode_id(self@[j].own_id()),
                    ) && (self@[j] is Output || spec_height(self@[j].own_id().pos as int)
                        > spec_height(neuron_id.pos as int)) ==> out@.contains(self@[j].own_id()),
            decreases n - i,
        {
            let g = self.genes[i];
            let (is_neuron, is_out) = match g {
                Gene::Input { .. } => (true, false),
                Gene::Hidden { .. } => (true, false),
                Gene::Output { .. } => (true, true),
                Gene::Synapse { .. } => (false, false),
            };
            if is_neuron {
                let id = g.key_id();
                if id != neuron_id && (is_out || get_neuron_height(id.pos) > src_h) {
                    match self.find_synapse_index(neuron_id, encode_id(id)) {
                        None => {
                            proof {
                                assert(self@.contains(self@[i as int]));
                            }
                            let ghost out0 = out@;
                            out.push(id);
                            proof {
                                assert forall|x: NeuronId| out0.contains(x) implies out@.contains(
                                    x,
                                ) by {
                                    let k = choose|k: int| 0 <= k < out0.len() && out0[k] == x;
                                    assert(out@[k] == x);
                                }
                                assert(out@[out@.len() - 1] == self@[i as int].own_id());
                            }
                        },
                        Some(si) => {
                            proof {
                                assert(self@.contains(self@[si as int]));
                                assert(has_synapse(self@, neuron_id, spec_encode_id(id)));
                            }
                        },
                    }
                }
            }
            i = i + 1;
        }
        proof {
            assert forall|g: Gene|
                #[trigger] self@.contains(g) && g.is_neuron() && g.own_id() != neuron_id
                    && !has_synapse(self@, neuron_id, spec_encode_id(g.own_id())) && (g is Output
                    || spec_height(g.own_id().pos as int) > spec_height(
                    neuron_id.pos as int,
                )) implies out@.contains(g.own_id()) by {
                let j = choose|j: int| 0 <= j < self@.len() && self@[j] == g;
            }
        }
        out
    }

    /// Grows a random child: draws one legal `(parent, child)` pair and
    /// commits it; reports the pair, or the empty candidate set.
    pub fn random_child(&mut self, rng: &mut rand::rngs::StdRng) -> (r: Option<
        (NeuronId, NeuronId),
    >)
        requires
            old(self).wf(),
        ensures
            final(self).wf(),
            match r {
                Some(pc) => valid_growth(old(self)@, pc.0, pc.1) && grown(
                    old(self)@,
                    final(self)@,
                    pc.0,
                    pc.1,
                ),
                None => final(self)@ == old(self)@ && (forall|g: Gene|
                    !(#[trigger] old(self)@.contains(g) && eligible_parent(old(self)@, g))),
            },
    {
        let cands = self.get_neuron_candidates();
        if cands.len() == 0 {
            return None;
        }
        let k = crate::rng::pick_index(rng, cands.len());
        let pair = cands[k];
        self.apply_growth(pair.0, pair.1);
        Some(pair)
    }

    /// Grows a random child and immediately tries to give it a random
    /// outgoing synapse as well; the growth half commits even when no
    /// legal outgoing target exists.  Reports the pair grown and the
    /// outgoing target if one was linked.
    pub fn rand_connected_child(&mut self, rng: &mut rand::rngs::StdRng) -> (r: Option<
        (NeuronId, NeuronId, Option<NeuronId>),
    >)
        requires
            old(self).wf(),
        ensures
            final(self).wf(),
            r is None ==> final(self)@ == old(self)@,
            r is None ==> (forall|g: Gene|
                !(#[trigger] old(self)@.contains(g) && eligible_parent(old(self)@, g))),
            r matches Some(pct) ==> valid_growth(old(self)@, pct.0, pct.1),
            r matches Some(pct) ==> (pct.2 is None ==> grown(old(self)@, final(self)@, pct.0, pct.1)
                && (forall|t: NeuronId| !valid_target(final(self)@, pct.1, t))),
            r matches Some(pct) ==> (pct.2 matches Some(t) ==> grown_linked(
                old(self)@,
                final(self)@,
                pct.0,
                pct.1,
                t,
            )),
    {
        let pair = match self.random_child(rng) {
            None => {
                return None;
            },
            Some(pc) => pc,
        };
        let ghost s0 = old(self)@;
        let ghost mid = self@;
        proof {
            assert(valid_source(mid, pair.1)) by {
                assert(mid.contains(hidden_gene(pair.1)));
            }
        }
        let linked = self.link_to_random_target(pair.1, rng);
        proof {
            match linked {
                None => {
                    assert(self@ == mid);
                    assert(grown(s0, self@, pair.0, pair.1));
                    assert forall|t2: NeuronId| !valid_target(self@, pair.1, t2) by {
                        assert(!valid_target(mid, pair.1, t2));
                    }
                },
                Some(t) => {
                    lemma_grown_then_linked(s0, mid, self@, pair.0, pair.1, t);
                },
            }
        }
        Some((pair.0, pair.1, linked))
    }

    /// Tries to give the neuron `src` one random outgoing synapse among
    /// its current legal targets; reports the target, or the empty
    /// candidate set.
    fn link_to_random_target(&mut self, src: NeuronId, rng: &mut rand::rngs::StdRng) -> (r: Option<
        NeuronId,
    >)
        requires
            old(self).wf(),
            valid_source(old(self)@, src),
        ensures
            final(self).wf(),
            match r {
                None => final(self)@ == old(self)@ && (forall|t: NeuronId|
                    !valid_target(old(self)@, src, t)),
                Some(t) => valid_target(old(self)@, src, t) && added_synapse(
                    old(self)@,
                    final(self)@,
                    src,
                    t,
                ),
            },
    {
        let targets = self.get_synapse_candidates(src);
        if targets.len() == 0 {
            proof {
                assert forall|t: NeuronId| !valid_target(self@, src, t) by {
                    if valid_target(self@, src, t) {
                        let n = choose|n: Gene|
                            #[trigger] self@.contains(n) && n.is_neuron() && n.own_id() == t && (
                            n is Output || spec_height(t.pos as int) > spec_height(
                                src.pos as int,
                            ));
                        assert(targets@.contains(n.own_id()));
                    }
                }
            }
            return None;
        }
        let k2 = crate::rng::pick_index(rng, targets.len());
        let t = targets[k2];
        let ok = self.add_synapse(src, t);
        proof {
            assert(ok);
        }
        Some(t)
    }

    /// Creates a random synapse: draws a source among all input and hidden
    /// neurons, then a legal target for it; a draw with no legal target is
    /// reported as a no-op.
    pub fn random_synapse(&mut self, rng: &mut rand::rngs::StdRng) -> (r: Option<
        (NeuronId, NeuronId),
    >)
        requires
            old(self).wf(),
        ensures
            final(self).wf(),
            match r {
                Some(st) => valid_source(old(self)@, st.0) && valid_target(
                    old(self)@,
                    st.0,
                    st.1,
                ) && added_synapse(old(self)@, final(self)@, st.0, st.1),
                None => final(self)@ == old(self)@ && ((forall|g: Gene|
                    !(#[trigger] old(self)@.contains(g) && g.is_neuron() && !(g is Output))) || (
                exists|src: NeuronId|
                    #[trigger] valid_source(old(self)@, src) && forall|t: NeuronId|
                        !valid_target(old(self)@, src, t))),
            },
    {
        let sources = self.get_possible_synapse_sources();
        if sources.len() == 0 {
            proof {
                assert forall|g: Gene|
                    !(#[trigger] self@.contains(g) && g.is_neuron() && !(g is Output)) by {
                    if self@.contains(g) && g.is_neuron() && !(g is Output) {
                        assert(sources@.contains(g.own_id()));
                    }
                }
            }
            return None;
        }
        let k = crate::rng::pick_index(rng, sources.len());
        let src = sources[k];
        let targets = self.get_synapse_candidates(src);
        if targets.len() == 0 {
            proof {
                assert(valid_source(self@, src));
                assert forall|t: NeuronId| !valid_target(self@, src, t) by {
                    if valid_target(self@, src, t) {
                        let n = choose|n: Gene|
                            #[trigger] self@.contains(n) && n.is_neuron() && n.own_id() == t && (
                            n is Output || spec_height(t.pos as int) > spec_height(
                                src.pos as int,
                            ));
                        assert(targets@.contains(n.own_id()));
                    }
                }
            }
            return None;
        }
        let k2 = crate::rng::pick_index(rng, targets.len());
        let t = targets[k2];
        let ok = self.add_synapse(src, t);
        proof {
            assert(ok);
        }
        Some((src, t))
    }
}


/// `s` with the (unique) occurrence of the gene `g` removed, order kept.
pub open spec fn drop_gene(s: Seq<Gene>, g: Gene) -> Seq<Gene> {
    s.remove(choose|i: int| 0 <= i < s.len() && s[i] == g)
}

/// `s` with the growth counter of the neuron `par` decremented, when
/// `par` is present as an input or hidden neuron with a positive counter;
/// unchanged otherwise.
pub open spec fn dec_children(s: Seq<Gene>, par: NeuronId) -> Seq<Gene> {
    if has_neuron(s, par) && !(neuron_gene(s, par) is Output) && neuron_gene(s, par).child_count()
        > 0 {
        let pg = neuron_gene(s, par);
        let i = choose|i: int| 0 <= i < s.len() && s[i] == pg;
        s.update(i, pg.with_children((pg.child_count() - 1) as u8))
    } else {
        s
    }
}

/// `s` with the neuron `e` deleted if it is a hidden neuron that no
/// synapse touches any more; deleting it hands its slot back to its tree
/// parent, whose growth counter is decremented.
pub open spec fn prune_spec(s: Seq<Gene>, e: NeuronId) -> Seq<Gene> {
    if has_neuron(s, e) && neuron_gene(s, e) is Hidden && !touches_any(s, e) {
        dec_children(drop_gene(s, neuron_gene(s, e)), tree_parent(e))
    } else {
        s
    }
}

/// The full effect of removing the synapse `from -> to`: the synapse gene
/// disappears, then each endpoint in turn is pruned if it is a hidden
/// neuron left without any synapse.
pub open spec fn removed_synapse(s: Seq<Gene>, from: NeuronId, to: NeuronId) -> Seq<Gene> {
    let s1 = drop_gene(s, synapse_gene(s, from, spec_encode_id(to)));
    prune_spec(prune_spec(s1, from), to)
}

/// Dropping one synapse gene preserves every invariant except possibly
/// the connectivity of the two neurons it touched.
pub proof fn lemma_wf_drop_synapse(s: Seq<Gene>, g: Gene)
    requires
        crate::invariants::wf_partial(s),
        s.contains(g),
        g is Synapse,
    ensures
        crate::invariants::wf_partial(drop_gene(s, g)),
        drop_gene(s, g).len() == s.len() - 1,
        !drop_gene(s, g).contains(g),
        forall|x: Gene| x != g ==> (#[trigger] drop_gene(s, g).contains(x) <==> s.contains(x)),
        forall|x: Gene|
            #[trigger] drop_gene(s, g).contains(x) && x is Hidden && hidden_connected(s)
                && !touches(g, x.own_id()) ==> touches_any(drop_gene(s, g), x.own_id()),
{
    let i = choose|i: int| 0 <= i < s.len() && s[i] == g;
    let s1 = drop_gene(s, g);
    crate::invariants::lemma_remove_contains(s, i);
    assert forall|sd: u8, ps: int| #[trigger] has_hidden_at(s1, sd, ps) == has_hidden_at(
        s,
        sd,
        ps,
    ) by {
        if has_hidden_at(s1, sd, ps) {
            let h = choose|h: Gene|
                #[trigger] s1.contains(h) && h is Hidden && h.own_id().seed == sd
                    && h.own_id().pos == ps;
            assert(s.contains(h));
        }
        if has_hidden_at(s, sd, ps) {
            let h = choose|h: Gene|
                #[trigger] s.contains(h) && h is Hidden && h.own_id().seed == sd
                    && h.own_id().pos == ps;
            assert(s1.contains(h));
        }
    }
    assert(counters_ok(s1)) by {
        assert forall|x: Gene| #[trigger] s1.contains(x) && x.is_neuron() implies x.child_count()
            as int == child_slot_count(s1, x.own_id()) by {
            assert(s.contains(x));
        }
    }
    assert(edges_ok(s1)) by {
        assert forall|x: Gene| #[trigger] s1.contains(x) && x is Synapse implies edge_source_ok(
            s1,
            x,
        ) && edge_dest_ok(s1, x) by {
            assert(s.contains(x));
            let n1 = choose|n: Gene|
                #[trigger] s.contains(n) && n.is_neuron() && !(n is Output) && n.own_id()
                    == x.own_id();
            assert(s1.contains(n1));
            let n2 = choose|n: Gene|
                #[trigger] s.contains(n) && n.is_neuron() && spec_encode_id(n.own_id())
                    == x.dest_enc() && (n is Output || spec_height(n.own_id().pos as int)
                    > spec_height(x.own_id().pos as int));
            assert(s1.contains(n2));
        }
    }
    assert forall|x: Gene|
        #[trigger] s1.contains(x) && x is Hidden && hidden_connected(s) && !touches(
            g,
            x.own_id(),
        ) implies touches_any(s1, x.own_id()) by {
        assert(s.contains(x));
        let w = choose|w: Gene| #[trigger] s.contains(w) && touches(w, x.own_id());
        assert(w != g);
        assert(s1.contains(w));
    }
}

/// Pruning one possibly-isolated neuron preserves every invariant except
/// connectivity, leaves every synapse untouched, and changes neuron
/// presence only at the pruned identifier.
#[verifier::rlimit(100)]
pub proof fn lemma_prune(s: Seq<Gene>, e: NeuronId)
    requires
        crate::invariants::wf_partial(s),
    ensures
        crate::invariants::wf_partial(prune_spec(s, e)),
        forall|x: Gene| x is Synapse ==> (#[trigger] prune_spec(s, e).contains(x) <==> s.contains(
            x,
        )),
        forall|id: NeuronId| #[trigger] touches_any(prune_spec(s, e), id) == touches_any(s, id),
        forall|id: NeuronId|
            id != e ==> (#[trigger] has_neuron(prune_spec(s, e), id) <==> has_neuron(s, id)),
        has_neuron(prune_spec(s, e), e) <==> (has_neuron(s, e) && !(neuron_gene(s, e) is Hidden
            && !touches_any(s, e))),
        forall|sd: u8, ps: int|
            #[trigger] has_hidden_at(prune_spec(s, e), sd, ps) ==> has_hidden_at(s, sd, ps),
        forall|id: NeuronId|
            id != e && has_neuron(s, id) ==> #[trigger] neuron_gene(prune_spec(s, e), id)
                is Hidden == neuron_gene(s, id) is Hidden,
{
    let sp = prune_spec(s, e);
    if !(has_neuron(s, e) && neuron_gene(s, e) is Hidden && !touches_any(s, e)) {
        assert(sp == s);
        assert forall|id: NeuronId|
            id != e && has_neuron(s, id) implies #[trigger] neuron_gene(sp, id)
            is Hidden == neuron_gene(s, id) is Hidden by {}
    } else {
        let eg = neuron_gene(s, e);
        assert(s.contains(eg) && eg.is_neuron() && eg.own_id() == e);
        assert(eg is Hidden);
        assert(e.pos > 0);
        let ie = choose|i: int| 0 <= i < s.len() && s[i] == eg;
        let sd = drop_gene(s, eg);
        crate::invariants::lemma_remove_contains(s, ie);
        let par = tree_parent(e);
        assert(par.pos < e.pos);
        assert(e.pos as int == 2 * (par.pos as int) + 1 || e.pos as int == 2 * (par.pos as int)
            + 2);

        // Hidden occupancy after the drop: the old occupancy minus `e`.
        assert forall|sdd: u8, ps: int| #[trigger] has_hidden_at(sd, sdd, ps) == (has_hidden_at(
            s,
            sdd,
            ps,
        ) && !(sdd == e.seed && ps == e.pos)) by {
            if has_hidden_at(sd, sdd, ps) {
                let h = choose|h: Gene|
                    #[trigger] sd.contains(h) && h is Hidden && h.own_id().seed == sdd
                        && h.own_id().pos == ps;
                assert(s.contains(h));
                if sdd == e.seed && ps == e.pos {
                    assert(h == eg);
                }
            }
            if has_hidden_at(s, sdd, ps) && !(sdd == e.seed && ps == e.pos) {
                let h = choose|h: Gene|
                    #[trigger] s.contains(h) && h is Hidden && h.own_id().seed == sdd
                        && h.own_id().pos == ps;
                assert(h != eg);
                assert(sd.contains(h));
            }
        }

        // Neuron presence after the drop.
        assert forall|id: NeuronId| id != e implies (#[trigger] has_neuron(sd, id) <==> has_neuron(
            s,
            id,
        )) by {
            if has_neuron(sd, id) {
                let n = choose|n: Gene| #[trigger] sd.contains(n) && n.is_neuron() && n.own_id() == id;
                assert(s.contains(n));
            }
            if has_neuron(s, id) {
                let n = choose|n: Gene| #[trigger] s.contains(n) && n.is_neuron() && n.own_id() == id;
                assert(n != eg);
                assert(sd.contains(n));
            }
        }
        assert(!has_neuron(sd, e)) by {
            if has_neuron(sd, e) {
                let n = choose|n: Gene| #[trigger] sd.contains(n) && n.is_neuron() && n.own_id() == e;
                assert(s.contains(n));
                assert(n == eg);
            }
        }

        // Edges keep their witnesses: no synapse touched `e`.
        assert(edges_ok(sd)) by {
            assert forall|x: Gene| #[trigger] sd.contains(x) && x is Synapse implies
                edge_source_ok(sd, x) && edge_dest_ok(sd, x) by {
                assert(s.contains(x));
                let n1 = choose|n: Gene|
                    #[trigger] s.contains(n) && n.is_neuron() && !(n is Output) && n.own_id()
                        == x.own_id();
                assert(n1 != eg) by {
                    if n1 == eg {
                        assert(touches(x, e));
                    }
                }
                assert(sd.contains(n1));
                let n2 = choose|n: Gene|
                    #[trigger] s.contains(n) && n.is_neuron() && spec_encode_id(n.own_id())
                        == x.dest_enc() && (n is Output || spec_height(n.own_id().pos as int)
                        > spec_height(x.own_id().pos as int));
                assert(n2 != eg) by {
                    if n2 == eg {
                        assert(touches(x, e));
                    }
                }
                assert(sd.contains(n2));
            }
        }

        // Synapses and touch-sets are untouched by dropping a neuron.
        assert forall|x: Gene| x is Synapse implies (#[trigger] sd.contains(x) <==> s.contains(
            x,
        )) by {}
        assert forall|id: NeuronId| #[trigger] touches_any(sd, id) == touches_any(s, id) by {
            if touches_any(sd, id) {
                let w = choose|w: Gene| #[trigger] sd.contains(w) && touches(w, id);
                assert(s.contains(w));
            }
            if touches_any(s, id) {
                let w = choose|w: Gene| #[trigger] s.contains(w) && touches(w, id);
                assert(w != eg);
                assert(sd.contains(w));
            }
        }

        if has_neuron(sd, par) && !(neuron_gene(sd, par) is Output) && neuron_gene(
            sd,
            par,
        ).child_count() > 0 {
            let pg = neuron_gene(sd, par);
            assert(sd.contains(pg) && pg.is_neuron() && pg.own_id() == par);
            assert(s.contains(pg));
            let pg2 = pg.with_children((pg.child_count() - 1) as u8);
            let ip = choose|i: int| 0 <= i < sd.len() && sd[i] == pg;
            assert(!sd.contains(pg2)) by {
                if sd.contains(pg2) {
                    assert(s.contains(pg2));
                    assert(pg2 == pg);
                }
            }
            crate::invariants::lemma_update_contains(sd, ip, pg2);
            let s2 = sd.update(ip, pg2);
            assert(sp == s2);

            // Hidden occupancy survives the counter update.
            assert forall|sdd: u8, ps: int| #[trigger] has_hidden_at(s2, sdd, ps)
                == has_hidden_at(sd, sdd, ps) by {
                if has_hidden_at(s2, sdd, ps) {
                    let h = choose|h: Gene|
                        #[trigger] s2.contains(h) && h is Hidden && h.own_id().seed == sdd
                            && h.own_id().pos == ps;
                    if h == pg2 {
                        assert(pg is Hidden && pg.own_id().seed == sdd && pg.own_id().pos == ps);
                        assert(sd.contains(pg));
                    } else {
                        assert(sd.contains(h));
                    }
                }
                if has_hidden_at(sd, sdd, ps) {
                    let h = choose|h: Gene|
                        #[trigger] sd.contains(h) && h is Hidden && h.own_id().seed == sdd
                            && h.own_id().pos == ps;
                    if h == pg {
                        assert(s2.contains(pg2) && pg2 is Hidden);
                    } else {
                        assert(s2.contains(h));
                    }
                }
            }

            assert(unique_neurons(s2)) by {
                assert forall|g1: Gene, g2: Gene|
                    #[trigger] s2.contains(g1) && #[trigger] s2.contains(g2) && g1.is_neuron()
                        && g2.is_neuron() && g1.own_id() == g2.own_id() implies g1 == g2 by {
                    if g1 == pg2 && g2 != pg2 {
                        assert(sd.contains(g2) && g2 != pg);
                        assert(s.contains(g2));
                        assert(g2 == pg);
                    } else if g2 == pg2 && g1 != pg2 {
                        assert(sd.contains(g1) && g1 != pg);
                        assert(s.contains(g1));
                        assert(g1 == pg);
                    }
                }
            }

            assert(counters_ok(s2)) by {
                assert forall|x: Gene| #[trigger] s2.contains(x) && x.is_neuron() implies
                    x.child_count() as int == child_slot_count(s2, x.own_id()) by {
                    let xi = x.own_id();
                    if x == pg2 {
                        assert(has_hidden_at(s, e.seed, e.pos as int)) by {
                            assert(s.contains(eg));
                        }
                        assert(pg.child_count() as int == child_slot_count(s, par));
                    } else {
                        assert(sd.contains(x) && x != pg);
                        assert(s.contains(x));
                        assert(x.child_count() as int == child_slot_count(s, xi));
                        assert(!(xi.seed == e.seed && 2 * (xi.pos as int) + 1 == e.pos as int))
                            by {
                            if xi.seed == e.seed && 2 * (xi.pos as int) + 1 == e.pos as int {
                                assert(xi.pos == par.pos && xi.seed == par.seed);
                                assert(x == pg);
                            }
                        }
                        assert(!(xi.seed == e.seed && 2 * (xi.pos as int) + 2 == e.pos as int))
                            by {
                            if xi.seed == e.seed && 2 * (xi.pos as int) + 2 == e.pos as int {
                                assert(xi.pos == par.pos && xi.seed == par.seed);
                                assert(x == pg);
                            }
                        }
                    }
                }
            }

            assert(edges_ok(s2)) by {
                assert forall|x: Gene| #[trigger] s2.contains(x) && x is Synapse implies
                    edge_source_ok(s2, x) && edge_dest_ok(s2, x) by {
                    assert(sd.contains(x));
                    let n1 = choose|n: Gene|
                        #[trigger] sd.contains(n) && n.is_neuron() && !(n is Output) && n.own_id()
                            == x.own_id();
                    if n1 == pg {
                        assert(s2.contains(pg2) && pg2.is_neuron() && !(pg2 is Output)
                            && pg2.own_id() == x.own_id());
                    } else {
                        assert(s2.contains(n1));
                    }
                    let n2 = choose|n: Gene|
                        #[trigger] sd.contains(n) && n.is_neuron() && spec_encode_id(n.own_id())
                            == x.dest_enc() && (n is Output || spec_height(n.own_id().pos as int)
                            > spec_height(x.own_id().pos as int));
                    if n2 == pg {
                        assert(s2.contains(pg2) && pg2.is_neuron() && spec_encode_id(
                            pg2.own_id(),
                        ) == x.dest_enc());
                    } else {
                        assert(s2.contains(n2));
                    }
                }
            }

            assert(parents_ok(s2)) by {
                assert forall|g1: Gene, n: Gene|
                    #[trigger] s2.contains(g1) && #[trigger] s2.contains(n) && g1 is Hidden
                        && n.is_neuron() && n.own_id() == tree_parent(g1.own_id()) implies !(
                    n is Output) by {
                    let g0 = if g1 == pg2 {
                        pg
                    } else {
                        g1
                    };
                    let n0 = if n == pg2 {
                        pg
                    } else {
                        n
                    };
                    assert(s.contains(g0) && s.contains(n0));
                    assert(g0 is Hidden && n0.is_neuron() && n0.own_id() == tree_parent(
                        g0.own_id(),
                    ));
                }
            }

            // Synapses and touch-sets survive the counter update.
            assert forall|x: Gene| x is Synapse implies (#[trigger] s2.contains(x)
                <==> sd.contains(x)) by {}
            assert forall|id: NeuronId| #[trigger] touches_any(s2, id) == touches_any(sd, id) by {
                if touches_any(s2, id) {
                    let w = choose|w: Gene| #[trigger] s2.contains(w) && touches(w, id);
                    assert(sd.contains(w));
                }
                if touches_any(sd, id) {
                    let w = choose|w: Gene| #[trigger] sd.contains(w) && touches(w, id);
                    assert(s2.contains(w));
                }
            }
            assert forall|id: NeuronId| id != e implies (#[trigger] has_neuron(s2, id)
                <==> has_neuron(s, id)) by {
                if has_neuron(s2, id) {
                    let n = choose|n: Gene|
                        #[trigger] s2.contains(n) && n.is_neuron() && n.own_id() == id;
                    if n == pg2 {
                        assert(s.contains(pg));
                    } else {
                        assert(sd.contains(n));
                        assert(s.contains(n));
                    }
                }
                if has_neuron(s, id) {
                    if has_neuron(sd, id) {
                        let n = choose|n: Gene|
                            #[trigger] sd.contains(n) && n.is_neuron() && n.own_id() == id;
                        if n == pg {
                            assert(s2.contains(pg2));
                        } else {
                            assert(s2.contains(n));
                        }
                    }
                }
            }
            assert(!has_neuron(s2, e)) by {
                if has_neuron(s2, e) {
                    let n = choose|n: Gene|
                        #[trigger] s2.contains(n) && n.is_neuron() && n.own_id() == e;
                    assert(n != pg2);
                    assert(sd.contains(n));
                }
            }
            assert forall|id: NeuronId|
                id != e && has_neuron(s, id) implies #[trigger] neuron_gene(s2, id)
                is Hidden == neuron_gene(s, id) is Hidden by {
                let a = neuron_gene(s2, id);
                let b = neuron_gene(s, id);
                assert(has_neuron(s2, id));
                assert(s2.contains(a) && a.is_neuron() && a.own_id() == id);
                assert(s.contains(b) && b.is_neuron() && b.own_id() == id);
                let a0 = if a == pg2 {
                    pg
                } else {
                    a
                };
                assert(s.contains(a0) && a0.own_id() == id);
                assert(a0 == b);
            }
        } else {
            let s2 = sd;
            assert(sp == s2);
            assert(counters_ok(s2)) by {
                assert forall|x: Gene| #[trigger] s2.contains(x) && x.is_neuron() implies
                    x.child_count() as int == child_slot_count(s2, x.own_id()) by {
                    let xi = x.own_id();
                    assert(s.contains(x));
                    assert(x.child_count() as int == child_slot_count(s, xi));
                    assert(!(xi.seed == e.seed && 2 * (xi.pos as int) + 1 == e.pos as int)) by {
                        if xi.seed == e.seed && 2 * (xi.pos as int) + 1 == e.pos as int {
                            assert(xi == par);
                            assert(has_neuron(sd, par));
                            assert(neuron_gene(sd, par) == x) by {
                                let n = neuron_gene(sd, par);
                                assert(sd.contains(n) && n.is_neuron() && n.own_id() == par);
                                assert(s.contains(n));
                            }
                            assert(!(x is Output)) by {
                                assert(s.contains(eg) && s.contains(x));
                            }
                            assert(x.child_count() as int >= 1) by {
                                assert(has_hidden_at(s, e.seed, e.pos as int)) by {
                                    assert(s.contains(eg));
                                }
                            }
                            assert(false);
                        }
                    }
                    assert(!(xi.seed == e.seed && 2 * (xi.pos as int) + 2 == e.pos as int)) by {
                        if xi.seed == e.seed && 2 * (xi.pos as int) + 2 == e.pos as int {
                            assert(xi == par);
                            assert(has_neuron(sd, par));
                            assert(neuron_gene(sd, par) == x) by {
                                let n = neuron_gene(sd, par);
                                assert(sd.contains(n) && n.is_neuron() && n.own_id() == par);
                                assert(s.contains(n));
                            }
                            assert(!(x is Output)) by {
                                assert(s.contains(eg) && s.contains(x));
                            }
                            assert(x.child_count() as int >= 1) by {
                                assert(has_hidden_at(s, e.seed, e.pos as int)) by {
                                    assert(s.contains(eg));
                                }
                            }
                            assert(false);
                        }
                    }
                }
            }
            assert forall|id: NeuronId|
                id != e && has_neuron(s, id) implies #[trigger] neuron_gene(s2, id)
                is Hidden == neuron_gene(s, id) is Hidden by {
                let a = neuron_gene(s2, id);
                let b = neuron_gene(s, id);
                assert(has_neuron(s2, id));
                assert(s2.contains(a) && a.is_neuron() && a.own_id() == id);
                assert(s.contains(b) && b.is_neuron() && b.own_id() == id);
                assert(s.contains(a));
                assert(a == b);
            }
        }
    }
}


impl Genome {
    /// Whether any synapse has the neuron `id` as an endpoint.
    fn touches_neuron(&self, id: NeuronId) -> (r: bool)
        ensures
            r == touches_any(self@, id),
    {
        let n = self.genes.len();
        let key = encode_id(id);
        let mut i: usize = 0;
        while i < n
            invariant
                i <= n,
                n == self@.len(),
                key == spec_encode_id(id),
                forall|j: int| 0 <= j < i ==> !touches(#[trigger] self@[j], id),
            decreases n - i,
        {
            match &self.genes[i] {
                Gene::Synapse { source, dest, .. } => {
                    if *source == id || *dest == key {
                        proof {
                            assert(self@.contains(self@[i as int]));
                        }
                        return true;
                    }
                },
                _ => {},
            }
            i = i + 1;
        }
        proof {
            if touches_any(self@, id) {
                let w = choose|w: Gene| #[trigger] self@.contains(w) && touches(w, id);
                let j = choose|j: int| 0 <= j < self@.len() && self@[j] == w;
                assert(!touches(self@[j], id));
            }
        }
        false
    }

    /// Deletes the neuron `e` if it is a hidden neuron no synapse touches
    /// any more, handing its slot back to its tree parent.
    fn remove_neuron_if_isolated(&mut self, e: NeuronId)
        requires
            wf_partial(old(self)@),
        ensures
            wf_partial(final(self)@),
            final(self)@ == prune_spec(old(self)@, e),
    {
        let ghost s0 = self@;
        proof {
            lemma_prune(s0, e);
        }
        let ei = match self.find_neuron_index(e) {
            None => {
                return ;
            },
            Some(i) => i,
        };
        let eg = self.genes[ei];
        proof {
            assert(s0.contains(eg));
            assert(has_neuron(s0, e));
            assert(neuron_gene(s0, e) == eg);
        }
        let is_hidden = match eg {
            Gene::Hidden { .. } => true,
            _ => false,
        };
        if !is_hidden {
            return ;
        }
        if self.touches_neuron(e) {
            return ;
        }
        proof {
            let ci = choose|i: int| 0 <= i < s0.len() && s0[i] == eg;
            assert(ci == ei) by {
                if ci < ei as int {
                    assert(s0[ci] != s0[ei as int]);
                } else if ci > ei as int {
                    assert(s0[ei as int] != s0[ci]);
                }
            }
        }
        self.genes.remove(ei);
        let ghost sd = self@;
        proof {
            assert(sd == drop_gene(s0, eg));
        }
        proof {
            assert(e.pos > 0);
        }
        let par = NeuronId { seed: e.seed, pos: (e.pos - 1) / 2 };
        proof {
            assert(par == tree_parent(e));
        }
        let pi = match self.find_neuron_index(par) {
            None => {
                proof {
                    assert(self@ == prune_spec(s0, e));
                }
                return ;
            },
            Some(i) => i,
        };
        let pg = self.genes[pi];
        proof {
            assert(sd.contains(pg));
            assert(has_neuron(sd, par));
            assert(neuron_gene(sd, par) == pg) by {
                let n = neuron_gene(sd, par);
                assert(sd.contains(n) && n.is_neuron() && n.own_id() == par);
                assert(s0.contains(n) && s0.contains(pg));
            }
        }
        let (pc, adjustable) = match pg {
            Gene::Input { children, .. } => (children, true),
            Gene::Hidden { children, .. } => (children, true),
            _ => (0, false),
        };
        if !adjustable || pc == 0 {
            proof {
                assert(self@ == prune_spec(s0, e));
            }
            return ;
        }
        let dec = match pg {
            Gene::Input { id, children, bias_bits } => Gene::Input { id, children: children - 1,
                bias_bits },
            Gene::Hidden { id, children, bias_bits } => Gene::Hidden { id, children: children - 1,
                bias_bits },
            _ => pg,
        };
        proof {
            assert(dec == pg.with_children((pg.child_count() - 1) as u8));
            let cp = choose|i: int| 0 <= i < sd.len() && sd[i] == pg;
            assert(cp == pi) by {
                if cp < pi as int {
                    assert(sd[cp] != sd[pi as int]);
                } else if cp > pi as int {
                    assert(sd[pi as int] != sd[cp]);
                }
            }
        }
        self.genes[pi] = dec;
        proof {
            assert(self@ == prune_spec(s0, e));
        }
    }

    /// Removes the synapse `from_id -> to_id` if it is present, then
    /// deletes either endpoint that is a hidden neuron left with no
    /// synapse at all; reports whether a synapse was found and removed.
    pub fn remove_synapse(&mut self, from_id: NeuronId, to_id: NeuronId) -> (r: bool)
        requires
            old(self).wf(),
        ensures
            final(self).wf(),
            r == has_synapse(old(self)@, from_id, spec_encode_id(to_id)),
            !r ==> final(self)@ == old(self)@,
            r ==> final(self)@ == removed_synapse(old(self)@, from_id, to_id),
    {
        let ghost s0 = self@;
        let dst = encode_id(to_id);
        let si = match self.find_synapse_index(from_id, dst) {
            None => {
                return false;
            },
            Some(i) => i,
        };
        let ghost sg = s0[si as int];
        proof {
            assert(s0.contains(sg));
            assert(has_synapse(s0, from_id, spec_encode_id(to_id)));
            assert(synapse_gene(s0, from_id, spec_encode_id(to_id)) == sg) by {
                let w = synapse_gene(s0, from_id, spec_encode_id(to_id));
                assert(s0.contains(w) && w is Synapse && w.own_id() == from_id && w.dest_enc()
                    == spec_encode_id(to_id));
            }
            let ci = choose|i: int| 0 <= i < s0.len() && s0[i] == sg;
            assert(ci == si) by {
                if ci < si as int {
                    assert(s0[ci] != s0[si as int]);
                } else if ci > si as int {
                    assert(s0[si as int] != s0[ci]);
                }
            }
            lemma_wf_drop_synapse(s0, sg);
        }
        self.genes.remove(si);
        let ghost s1 = self@;
        proof {
            assert(s1 == drop_gene(s0, sg));
            lemma_prune(s1, from_id);
        }
        self.remove_neuron_if_isolated(from_id);
        let ghost s2 = self@;
        proof {
            lemma_prune(s2, to_id);
        }
        self.remove_neuron_if_isolated(to_id);
        let ghost s3 = self@;
        proof {
            assert(s3 == removed_synapse(s0, from_id, to_id));
            crate::codec::lemma_codec_round_trip(from_id);
            crate::codec::lemma_codec_round_trip(to_id);
            assert(hidden_connected(s3)) by {
                assert forall|x: Gene| #[trigger] s3.contains(x) && x is Hidden implies
                    touches_any(s3, x.own_id()) by {
                    let id = x.own_id();
                    assert(has_hidden_at(s3, id.seed, id.pos as int)) by {
                        assert(s3.contains(x));
                    }
                    assert(has_hidden_at(s1, id.seed, id.pos as int));
                    let h1 = choose|h: Gene|
                        #[trigger] s1.contains(h) && h is Hidden && h.own_id().seed == id.seed
                            && h.own_id().pos == id.pos as int;
                    assert(h1.own_id() == id);
                    if id != from_id && id != to_id {
                        assert(!touches(sg, id)) by {
                            crate::codec::lemma_codec_round_trip(id);
                            if sg.dest_enc() == spec_encode_id(id) {
                                assert(spec_decode_id(spec_encode_id(id)) == spec_decode_id(
                                    spec_encode_id(to_id),
                                ));
                            }
                        }
                        assert(touches_any(s1, id));
                        assert(touches_any(s2, id));
                        assert(touches_any(s3, id));
                    } else if id == from_id {
                        assert(has_neuron(s3, from_id)) by {
                            assert(s3.contains(x));
                        }
                        assert(has_neuron(s2, from_id));
                        assert(neuron_gene(s1, from_id) is Hidden) by {
                            assert(has_neuron(s1, from_id)) by {
                                assert(s1.contains(h1));
                            }
                            let n = neuron_gene(s1, from_id);
                            assert(s1.contains(n) && n.is_neuron() && n.own_id() == from_id);
                            assert(n == h1);
                        }
                        assert(touches_any(s1, from_id));
                        assert(touches_any(s2, from_id));
                        assert(touches_any(s3, from_id));
                    } else {
                        assert(has_neuron(s3, to_id)) by {
                            assert(s3.contains(x));
                        }
                        assert(neuron_gene(s2, to_id) is Hidden) by {
                            assert(has_neuron(s2, to_id)) by {
                                assert(has_neuron(s1, to_id)) by {
                                    assert(s1.contains(h1));
                                }
                            }
                            let n = neuron_gene(s2, to_id);
                            assert(s2.contains(n) && n.is_neuron() && n.own_id() == to_id);
                            assert(has_neuron(s1, to_id));
                            let m = neuron_gene(s1, to_id);
                            assert(m == h1);
                            assert(neuron_gene(s2, to_id) is Hidden == neuron_gene(
                                s1,
                                to_id,
                            ) is Hidden);
                        }
                        assert(touches_any(s2, to_id));
                        assert(touches_any(s3, to_id));
                    }
                }
            }
        }
        true
    }
}


/// Flipping the status of one synapse gene preserves every invariant.
proof fn lemma_wf_set_status(s: Seq<Gene>, i: int, st: SynapseStatus)
    requires
        genome_wf(s),
        0 <= i < s.len(),
        s[i] is Synapse,
        s[i].syn_status() != st,
    ensures
        genome_wf(s.update(i, s[i].with_status(st))),
{
    let g = s[i];
    let g2 = g.with_status(st);
    assert(s.contains(g));
    assert(!s.contains(g2)) by {
        if s.contains(g2) {
            assert(g2 == g);
        }
    }
    crate::invariants::lemma_update_contains(s, i, g2);
    let s2 = s.update(i, g2);
    assert forall|sd: u8, ps: int| #[trigger] has_hidden_at(s2, sd, ps) == has_hidden_at(
        s,
        sd,
        ps,
    ) by {
        if has_hidden_at(s2, sd, ps) {
            let h = choose|h: Gene|
                #[trigger] s2.contains(h) && h is Hidden && h.own_id().seed == sd
                    && h.own_id().pos == ps;
            assert(s.contains(h));
        }
        if has_hidden_at(s, sd, ps) {
            let h = choose|h: Gene|
                #[trigger] s.contains(h) && h is Hidden && h.own_id().seed == sd
                    && h.own_id().pos == ps;
            assert(s2.contains(h));
        }
    }
    assert(counters_ok(s2)) by {
        assert forall|x: Gene| #[trigger] s2.contains(x) && x.is_neuron() implies x.child_count()
            as int == child_slot_count(s2, x.own_id()) by {
            assert(s.contains(x));
        }
    }
    assert(unique_edges(s2)) by {
        assert forall|g1: Gene, g2x: Gene|
            #[trigger] s2.contains(g1) && #[trigger] s2.contains(g2x) && g1 is Synapse
                && g2x is Synapse && g1.own_id() == g2x.own_id() && g1.dest_enc()
                == g2x.dest_enc() implies g1 == g2x by {
            if g1 == g2 && g2x != g2 {
                assert(s.contains(g2x));
                assert(g2x == g);
            } else if g2x == g2 && g1 != g2 {
                assert(s.contains(g1));
                assert(g1 == g);
            }
        }
    }
    assert(edges_ok(s2)) by {
        assert forall|x: Gene| #[trigger] s2.contains(x) && x is Synapse implies edge_source_ok(
            s2,
            x,
        ) && edge_dest_ok(s2, x) by {
            let x0 = if x == g2 {
                g
            } else {
                x
            };
            assert(s.contains(x0));
            let n1 = choose|n: Gene|
                #[trigger] s.contains(n) && n.is_neuron() && !(n is Output) && n.own_id()
                    == x0.own_id();
            assert(s2.contains(n1));
            let n2 = choose|n: Gene|
                #[trigger] s.contains(n) && n.is_neuron() && spec_encode_id(n.own_id())
                    == x0.dest_enc() && (n is Output || spec_height(n.own_id().pos as int)
                    > spec_height(x0.own_id().pos as int));
            assert(s2.contains(n2));
        }
    }
    assert(hidden_connected(s2)) by {
        assert forall|x: Gene| #[trigger] s2.contains(x) && x is Hidden implies touches_any(
            s2,
            x.own_id(),
        ) by {
            assert(s.contains(x));
            let w = choose|w: Gene| #[trigger] s.contains(w) && touches(w, x.own_id());
            if w == g {
                assert(s2.contains(g2) && touches(g2, x.own_id()));
            } else {
                assert(s2.contains(w) && touches(w, x.own_id()));
            }
        }
    }
}

impl Genome {
    /// Indices of all synapse genes currently in the given status, in
    /// ascending order.
    pub fn get_synapse_indices(&self, status: SynapseStatus) -> (r: Vec<usize>)
        ensures
            forall|k: int|
                0 <= k < r@.len() ==> (#[trigger] r@[k]) < self@.len() && self@[r@[k] as int]
                    is Synapse && self@[r@[k] as int].syn_status() == status,
            forall|j: int|
                0 <= j < self@.len() && self@[j] is Synapse && (#[trigger] self@[j].syn_status())
                    == status ==> r@.contains(j as usize),
            forall|k1: int, k2: int| 0 <= k1 < k2 < r@.len() ==> r@[k1] < r@[k2],
    {
        let n = self.genes.len();
        let mut out: Vec<usize> = Vec::new();
        let mut i: usize = 0;
        while i < n
            invariant
                i <= n,
                n == self@.len(),
                forall|k: int|
                    0 <= k < out@.len() ==> (#[trigger] out@[k]) < i && self@[out@[k] as int]
                        is Synapse && self@[out@[k] as int].syn_status() == status,
                forall|j: int|
                    0 <= j < i && self@[j] is Synapse && (#[trigger] self@[j].syn_status())
                        == status ==> out@.contains(j as usize),
                forall|k1: int, k2: int| 0 <= k1 < k2 < out@.len() ==> out@[k1] < out@[k2],
            decreases n - i,
        {
            let matched = match &self.genes[i] {
                Gene::Synapse { status: st, .. } => *st == status,
                _ => false,
            };
            if matched {
                let ghost out0 = out@;
                out.push(i);
                proof {
                    assert forall|x: usize| out0.contains(x) implies out@.contains(x) by {
                        let k = choose|k: int| 0 <= k < out0.len() && out0[k] == x;
                        assert(out@[k] == x);
                    }
                    assert(out@[out@.len() - 1] == i);
                }
            }
            i = i + 1;
        }
        out
    }

    /// Sets the status of one synapse addressed by its endpoints; reports
    /// whether the synapse was found.
    pub fn set_synapse_status(&mut self, from_id: NeuronId, to_id: NeuronId, status: SynapseStatus)
        -> (r: bool)
        requires
            old(self).wf(),
        ensures
            final(self).wf(),
            r == has_synapse(old(self)@, from_id, spec_encode_id(to_id)),
            !r ==> final(self)@ == old(self)@,
            r ==> (exists|i: int|
                0 <= i < old(self)@.len() && old(self)@[i] is Synapse
                    && (#[trigger] old(self)@[i].own_id()) == from_id && old(self)@[i].dest_enc()
                    == spec_encode_id(to_id) && final(self)@ == old(self)@.update(
                    i,
                    old(self)@[i].with_status(status),
                )),
    {
        let ghost s0 = self@;
        let si = match self.find_synapse_index(from_id, encode_id(to_id)) {
            None => {
                return false;
            },
            Some(i) => i,
        };
        proof {
            assert(s0.contains(s0[si as int]));
        }
        let g = self.genes[si];
        let g2 = match g {
            Gene::Synapse { source, dest, status: _, weight_bits } => Gene::Synapse { source, dest,
                status, weight_bits },
            _ => g,
        };
        if g == g2 {
            proof {
                assert(s0.update(si as int, g.with_status(status)) =~= s0);
                assert(s0[si as int].with_status(status) == g2);
            }
            return true;
        }
        self.genes[si] = g2;
        proof {
            assert(g2 == s0[si as int].with_status(status));
            lemma_wf_set_status(s0, si as int, status);
        }
        true
    }

    /// Disables one random enabled synapse; reports its index, or the
    /// empty candidate set.
    pub fn disable_random_synapse(&mut self, rng: &mut rand::rngs::StdRng) -> (r: Option<usize>)
        requires
            old(self).wf(),
        ensures
            final(self).wf(),
            r is None ==> final(self)@ == old(self)@ && (forall|j: int|
                0 <= j < old(self)@.len() ==> !(old(self)@[j] is Synapse && (#[trigger]
                old(self)@[j].syn_status()) is Enabled)),
            r matches Some(i) ==> i < old(self)@.len() && old(self)@[i as int] is Synapse && old(
                self,
            )@[i as int].syn_status() is Enabled && final(self)@ == old(self)@.update(
                i as int,
                old(self)@[i as int].with_status(SynapseStatus::Disabled),
            ),
    {
        let idxs = self.get_synapse_indices(SynapseStatus::Enabled);
        if idxs.len() == 0 {
            proof {
                assert forall|j: int|
                    0 <= j < self@.len() implies !(self@[j] is Synapse && (#[trigger]
                self@[j].syn_status()) is Enabled) by {
                    if self@[j] is Synapse && self@[j].syn_status() is Enabled {
                        assert(idxs@.contains(j as usize));
                    }
                }
            }
            return None;
        }
        let k = crate::rng::pick_index(rng, idxs.len());
        let i = idxs[k];
        let g = self.genes[i];
        let g2 = match g {
            Gene::Synapse { source, dest, status: _, weight_bits } => Gene::Synapse { source, dest,
                status: SynapseStatus::Disabled, weight_bits },
            _ => g,
        };
        self.genes[i] = g2;
        proof {
            assert(g2 == old(self)@[i as int].with_status(SynapseStatus::Disabled));
            lemma_wf_set_status(old(self)@, i as int, SynapseStatus::Disabled);
        }
        Some(i)
    }

    /// Enables one random disabled synapse; reports its index, or the
    /// empty candidate set.
    pub fn enable_random_synapse(&mut self, rng: &mut rand::rngs::StdRng) -> (r: Option<usize>)
        requires
            old(self).wf(),
        ensures
            final(self).wf(),
            r is None ==> final(self)@ == old(self)@ && (forall|j: int|
                0 <= j < old(self)@.len() ==> !(old(self)@[j] is Synapse && (#[trigger]
                old(self)@[j].syn_status()) is Disabled)),
            r matches Some(i) ==> i < old(self)@.len() && old(self)@[i as int] is Synapse && old(
                self,
            )@[i as int].syn_status() is Disabled && final(self)@ == old(self)@.update(
                i as int,
                old(self)@[i as int].with_status(SynapseStatus::Enabled),
            ),
    {
        let idxs = self.get_synapse_indices(SynapseStatus::Disabled);
        if idxs.len() == 0 {
            proof {
                assert forall|j: int|
                    0 <= j < self@.len() implies !(self@[j] is Synapse && (#[trigger]
                self@[j].syn_status()) is Disabled) by {
                    if self@[j] is Synapse && self@[j].syn_status() is Disabled {
                        assert(idxs@.contains(j as usize));
                    }
                }
            }
            return None;
        }
        let k = crate::rng::pick_index(rng, idxs.len());
        let i = idxs[k];
        let g = self.genes[i];
        let g2 = match g {
            Gene::Synapse { source, dest, status: _, weight_bits } => Gene::Synapse { source, dest,
                status: SynapseStatus::Enabled, weight_bits },
            _ => g,
        };
        self.genes[i] = g2;
        proof {
            assert(g2 == old(self)@[i as int].with_status(SynapseStatus::Enabled));
            lemma_wf_set_status(old(self)@, i as int, SynapseStatus::Enabled);
        }
        Some(i)
    }

    /// The `(source, destination)` endpoints of every currently disabled
    /// synapse, destinations decoded back to identifiers.
    pub fn disabled_edge_endpoints(&self) -> (r: Vec<(NeuronId, NeuronId)>)
        requires
            self.wf(),
        ensures
            forall|k: int|
                0 <= k < r@.len() ==> has_synapse(
                    self@,
                    (#[trigger] r@[k]).0,
                    spec_encode_id(r@[k].1),
                ) && synapse_gene(self@, r@[k].0, spec_encode_id(r@[k].1)).syn_status()
                    is Disabled,
            forall|g: Gene|
                #[trigger] self@.contains(g) && g is Synapse && g.syn_status() is Disabled
                    ==> r@.contains((g.own_id(), spec_decode_id(g.dest_enc()))),
    {
        let n = self.genes.len();
        let mut out: Vec<(NeuronId, NeuronId)> = Vec::new();
        let mut i: usize = 0;
        while i < n
            invariant
                i <= n,
                n == self@.len(),
                self.wf(),
                forall|k: int|
                    0 <= k < out@.len() ==> has_synapse(
                        self@,
                        (#[trigger] out@[k]).0,
                        spec_encode_id(out@[k].1),
                    ) && synapse_gene(self@, out@[k].0, spec_encode_id(out@[k].1)).syn_status()
                        is Disabled,
                forall|j: int|
                    0 <= j < i && self@[j] is Synapse && (#[trigger] self@[j].syn_status())
                        is Disabled ==> out@.contains(
                        (self@[j].own_id(), spec_decode_id(self@[j].dest_enc())),
                    ),
            decreases n - i,
        {
            let g = self.genes[i];
            match g {
                Gene::Synapse { source, dest, status, .. } => {
                    match status {
                        SynapseStatus::Disabled => {
                            let pair = (source, crate::codec::decode_id(dest));
                            proof {
                                assert(self@.contains(self@[i as int]));
                                crate::codec::lemma_codec_round_trip(source);
                                assert(spec_encode_id(spec_decode_id(dest)) == dest) by {
                                    crate::codec::lemma_codec_round_trip(spec_decode_id(dest));
                                    assert(spec_decode_id(dest).seed * 256 + spec_decode_id(
                                        dest,
                                    ).pos == dest);
                                }
                                assert(has_synapse(self@, source, dest));
                                assert(synapse_gene(self@, source, dest).syn_status()
                                    is Disabled) by {
                                    let w = synapse_gene(self@, source, dest);
                                    assert(self@.contains(w) && w is Synapse && w.own_id()
                                        == source && w.dest_enc() == dest);
                                    assert(w == self@[i as int]);
                                }
                            }
                            let ghost out0 = out@;
                            out.push(pair);
                            proof {
                                assert forall|x: (NeuronId, NeuronId)| out0.contains(x) implies
                                    out@.contains(x) by {
                                    let k = choose|k: int| 0 <= k < out0.len() && out0[k] == x;
                                    assert(out@[k] == x);
                                }
                                assert(out@[out@.len() - 1] == pair);
                            }
                        },
                        SynapseStatus::Enabled => {},
                    }
                },
                _ => {},
            }
            i = i + 1;
        }
        proof {
            assert forall|g: Gene|
                #[trigger] self@.contains(g) && g is Synapse && g.syn_status()
                    is Disabled implies out@.contains((g.own_id(), spec_decode_id(g.dest_enc())))
                by {
                let j = choose|j: int| 0 <= j < self@.len() && self@[j] == g;
            }
        }
        out
    }

    /// Removes one random disabled synapse, pruning endpoints left
    /// isolated; reports the removed endpoints, or the empty candidate
    /// set.
    pub fn remove_random_disabled_synapse(&mut self, rng: &mut rand::rngs::StdRng) -> (r: Option<
        (NeuronId, NeuronId),
    >)
        requires
            old(self).wf(),
        ensures
            final(self).wf(),
            r is None ==> final(self)@ == old(self)@ && (forall|g: Gene|
                !(#[trigger] old(self)@.contains(g) && g is Synapse && g.syn_status()
                    is Disabled)),
            r matches Some(st) ==> has_synapse(old(self)@, st.0, spec_encode_id(st.1))
                && synapse_gene(old(self)@, st.0, spec_encode_id(st.1)).syn_status() is Disabled
                && final(self)@ == removed_synapse(old(self)@, st.0, st.1),
    {
        let eps = self.disabled_edge_endpoints();
        if eps.len() == 0 {
            proof {
                assert forall|g: Gene|
                    !(#[trigger] self@.contains(g) && g is Synapse && g.syn_status()
                        is Disabled) by {
                    if self@.contains(g) && g is Synapse && g.syn_status() is Disabled {
                        assert(eps@.contains((g.own_id(), spec_decode_id(g.dest_enc()))));
                    }
                }
            }
            return None;
        }
        let k = crate::rng::pick_index(rng, eps.len());
        let pair = eps[k];
        let removed = self.remove_synapse(pair.0, pair.1);
        proof {
            assert(removed);
        }
        Some(pair)
    }

    /// The kind of the gene carrying the identifier `id`, when one is
    /// present (the neuron's kind if a neuron carries it).
    pub fn get_gene_type(&self, id: NeuronId) -> (r: Option<GeneType>)
        requires
            self.wf(),
        ensures
            r matches Some(t) ==> has_neuron(self@, id) && t == (match neuron_gene(self@, id) {
                Gene::Input { .. } => GeneType::Input,
                Gene::Hidden { .. } => GeneType::Hidden,
                Gene::Output { .. } => GeneType::Output,
                Gene::Synapse { .. } => GeneType::Synapse,
            }),
            r is None ==> !has_neuron(self@, id),
    {
        match self.find_neuron_index(id) {
            None => None,
            Some(i) => {
                let g = self.genes[i];
                proof {
                    assert(self@.contains(g));
                    assert(neuron_gene(self@, id) == g);
                }
                Some(g.gene_type())
            },
        }
    }
}

} // verus!
