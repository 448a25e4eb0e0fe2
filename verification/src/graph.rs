//! The control-flow graph of one function, its per-block analysis nodes,
//! the block-level capability contracts (`BlockLattice`, `BlockTransfer`),
//! and the iterative fixed-point solver.

use petgraph::graph::DiGraph;
use vstd::prelude::*;

use crate::bits::{bits_equal, bits_union_with};
use crate::block::CodeBlockGraphWeight;
use crate::cfg::{
    cfg_add_edge, cfg_add_node, cfg_count, cfg_edge_seq, cfg_new, cfg_node_count, cfg_preds,
};
use crate::ir::IR;
use crate::reach::{block_out, ir_wf, transfer_reach, zero_bits, ReachLattice};

verus! {

broadcast use vstd::std_specs::vec::group_vec_axioms;

/// A per-analysis wrapper around one basic block: the block's identity and
/// instructions together with the converging `in`/`out` facts.
pub struct CodeBlockAnalysisNode {
    /// The underlying block's logical id.
    pub block_id: usize,
    /// The block's instructions, declaration numbers assigned.
    pub irs: Vec<IR>,
    pub reach_in: ReachLattice,
    pub reach_out: ReachLattice,
}

/// A directed graph of analysis nodes plus the graph-wide metadata needed
/// by bit-vector analyses. The topology lives in the graph structure; the
/// nodes are kept beside it, keyed by dense node index.
pub struct DataFlowGraph {
    pub graph: DiGraph<(), ()>,
    pub nodes: Vec<CodeBlockAnalysisNode>,
    pub weight: CodeBlockGraphWeight,
}

/// Per-block accessors for the fact type `L`, decoupling the solver from
/// the concrete node layout.
pub trait BlockLattice<L> {
    spec fn in_fact(&self) -> L;

    spec fn out_fact(&self) -> L;

    fn get_in(&self) -> (r: &L)
        ensures
            *r == self.in_fact(),
    ;

    fn set_in(&mut self, value: L)
        ensures
            final(self).in_fact() == value,
            final(self).out_fact() == old(self).out_fact(),
    ;

    fn get_out(&self) -> (r: &L)
        ensures
            *r == self.out_fact(),
    ;

    fn set_out(&mut self, value: L)
        ensures
            final(self).out_fact() == value,
            final(self).in_fact() == old(self).in_fact(),
    ;
}

impl BlockLattice<ReachLattice> for CodeBlockAnalysisNode {
    open spec fn in_fact(&self) -> ReachLattice {
        self.reach_in
    }

    open spec fn out_fact(&self) -> ReachLattice {
        self.reach_out
    }

    fn get_in(&self) -> (r: &ReachLattice) {
        &self.reach_in
    }

    fn set_in(&mut self, value: ReachLattice) {
        self.reach_in = value;
    }

    fn get_out(&self) -> (r: &ReachLattice) {
        &self.reach_out
    }

    fn set_out(&mut self, value: ReachLattice) {
        self.reach_out = value;
    }
}

/// The per-block transfer contract of an analysis. An analysis declares its
/// direction by which of `can_forward`/`can_backward` is satisfiable; the
/// unused direction's capability is never granted, so calling it is a
/// contract violation, not a runtime condition.
pub trait BlockTransfer<L>: Sized {
    spec fn can_forward(&self, in_value: &L, graph: &DataFlowGraph) -> bool;

    spec fn forward_ok(&self, in_value: &L, graph: &DataFlowGraph, r: &L) -> bool;

    spec fn can_backward(&self, out_value: &L, graph: &DataFlowGraph) -> bool;

    /// Whether the analysis gives the exit boundary a meaning; a forward
    /// analysis never does.
    spec fn can_exit(graph: &DataFlowGraph) -> bool;

    spec fn boundary_ok(graph: &DataFlowGraph, r: &L) -> bool;

    spec fn top_ok(graph: &DataFlowGraph, r: &L) -> bool;

    spec fn bottom_ok(graph: &DataFlowGraph, r: &L) -> bool;

    fn transfer_forward(&self, in_value: &L, graph: &DataFlowGraph, node_index: usize) -> (r: L)
        requires
            self.can_forward(in_value, graph),
        ensures
            self.forward_ok(in_value, graph, &r),
    ;

    fn transfer_backward(&self, out_value: &L, graph: &DataFlowGraph, node_index: usize) -> L
        requires
            self.can_backward(out_value, graph),
    ;

    fn entry_out(graph: &DataFlowGraph) -> (r: L)
        ensures
            Self::boundary_ok(graph, &r),
    ;

    fn exit_in(graph: &DataFlowGraph) -> (r: L)
        requires
            Self::can_exit(graph),
    ;

    fn top(graph: &DataFlowGraph) -> (r: L)
        ensures
            Self::top_ok(graph, &r),
    ;

    fn bottom(graph: &DataFlowGraph) -> (r: L)
        ensures
            Self::bottom_ok(graph, &r),
    ;
}

impl BlockTransfer<ReachLattice> for CodeBlockAnalysisNode {
    open spec fn can_forward(&self, in_value: &ReachLattice, graph: &DataFlowGraph) -> bool {
        &&& graph.weight.map_wf()
        &&& in_value@.len() == graph.weight.assignment_count
        &&& forall|k: int| 0 <= k < self.irs@.len() ==> ir_wf(#[trigger] self.irs@[k], graph.weight)
    }

    open spec fn forward_ok(
        &self,
        in_value: &ReachLattice,
        graph: &DataFlowGraph,
        r: &ReachLattice,
    ) -> bool {
        r@ == block_out(in_value@, self.irs@, graph.weight)
    }

    /// Reaching definitions is a forward analysis: the backward direction
    /// is never enabled.
    open spec fn can_backward(&self, out_value: &ReachLattice, graph: &DataFlowGraph) -> bool {
        false
    }

    /// Reaching definitions gives the exit boundary no meaning.
    open spec fn can_exit(graph: &DataFlowGraph) -> bool {
        false
    }

    /// Nothing reaches the entry of a function.
    open spec fn boundary_ok(graph: &DataFlowGraph, r: &ReachLattice) -> bool {
        r@ == zero_bits(graph.weight.assignment_count as nat)
    }

    open spec fn top_ok(graph: &DataFlowGraph, r: &ReachLattice) -> bool {
        r@ == zero_bits(graph.weight.assignment_count as nat)
    }

    open spec fn bottom_ok(graph: &DataFlowGraph, r: &ReachLattice) -> bool {
        r@ == Seq::new(graph.weight.assignment_count as nat, |i: int| true)
    }

    fn transfer_forward(
        &self,
        in_value: &ReachLattice,
        graph: &DataFlowGraph,
        node_index: usize,
    ) -> (r: ReachLattice) {
        transfer_reach(in_value, &self.irs, &graph.weight)
    }

    fn transfer_backward(
        &self,
        out_value: &ReachLattice,
        graph: &DataFlowGraph,
        node_index: usize,
    ) -> ReachLattice {
        unreached()
    }

    fn entry_out(graph: &DataFlowGraph) -> (r: ReachLattice) {
        ReachLattice::new(graph.weight.assignment_count)
    }

    fn exit_in(graph: &DataFlowGraph) -> (r: ReachLattice) {
        unreached()
    }

    fn top(graph: &DataFlowGraph) -> (r: ReachLattice) {
        ReachLattice::new(graph.weight.assignment_count)
    }

    fn bottom(graph: &DataFlowGraph) -> (r: ReachLattice) {
        let mut r = ReachLattice::new(graph.weight.assignment_count);
        crate::bits::bits_toggle_all(&mut r.value);
        proof {
            assert(r@ =~= Seq::new(graph.weight.assignment_count as nat, |i: int| true));
        }
        r
    }
}

impl DataFlowGraph {
    /// The graph's edges as (source index, target index) pairs.
    pub open spec fn edges(self) -> Seq<(usize, usize)> {
        cfg_edge_seq(self.graph)
    }

    /// Structural consistency: the topology and the node list agree, every
    /// edge endpoint is a node, every fact has the universe's width, and
    /// every instruction is well formed for the weight.
    pub open spec fn wf(self) -> bool {
        &&& cfg_node_count(self.graph) == self.nodes@.len()
        &&& forall|e: (usize, usize)|
            #[trigger] self.edges().contains(e) ==> e.0 < self.nodes@.len() && e.1
                < self.nodes@.len()
        &&& self.weight.map_wf()
        &&& forall|i: int|
            0 <= i < self.nodes@.len() ==> (#[trigger] self.nodes@[i].reach_in)@.len()
                == self.weight.assignment_count
        &&& forall|i: int|
            0 <= i < self.nodes@.len() ==> (#[trigger] self.nodes@[i].reach_out)@.len()
                == self.weight.assignment_count
        &&& forall|i: int, k: int|
            0 <= i < self.nodes@.len() && 0 <= k < self.nodes@[i].irs@.len() ==> ir_wf(
                #[trigger] self.nodes@[i].irs@[k],
                self.weight,
            )
    }

    /// Whether two graphs differ only in their lattice facts.
    pub open spec fn same_shape(self, other: DataFlowGraph) -> bool {
        &&& self.graph == other.graph
        &&& self.weight == other.weight
        &&& self.nodes@.len() == other.nodes@.len()
        &&& forall|i: int|
            0 <= i < self.nodes@.len() ==> (#[trigger] self.nodes@[i]).block_id
                == other.nodes@[i].block_id && self.nodes@[i].irs == other.nodes@[i].irs
    }

    /// An empty graph over the given weight.
    pub fn new(weight: CodeBlockGraphWeight) -> (g: DataFlowGraph)
        requires
            weight.map_wf(),
        ensures
            g.wf(),
            g.nodes@.len() == 0,
            g.edges().len() == 0,
            g.weight == weight,
    {
        DataFlowGraph { graph: cfg_new(), nodes: Vec::new(), weight }
    }

    /// Add one block's analysis node; its facts start at top (all clear).
    /// Returns the node's dense index.
    pub fn add_block_node(&mut self, block_id: usize, irs: Vec<IR>) -> (i: usize)
        requires
            old(self).wf(),
            old(self).nodes@.len() < 0xFFFF_FFFF,
            forall|k: int| 0 <= k < irs@.len() ==> ir_wf(#[trigger] irs@[k], old(self).weight),
        ensures
            final(self).wf(),
            i == old(self).nodes@.len(),
            final(self).nodes@.len() == old(self).nodes@.len() + 1,
            forall|j: int| 0 <= j < i ==> final(self).nodes@[j] == old(self).nodes@[j],
            final(self).nodes@[i as int].block_id == block_id,
            final(self).nodes@[i as int].irs == irs,
            final(self).nodes@[i as int].reach_in@ == zero_bits(
                old(self).weight.assignment_count as nat,
            ),
            final(self).nodes@[i as int].reach_out@ == zero_bits(
                old(self).weight.assignment_count as nat,
            ),
            final(self).edges() == old(self).edges(),
            final(self).weight == old(self).weight,
    {
        let count = self.weight.assignment_count;
        let idx = cfg_add_node(&mut self.graph);
        let node = CodeBlockAnalysisNode {
            block_id,
            irs,
            reach_in: ReachLattice::new(count),
            reach_out: ReachLattice::new(count),
        };
        self.nodes.push(node);
        proof {
            assert forall|e: (usize, usize)| #[trigger]
                self.edges().contains(e) implies e.0 < self.nodes@.len() && e.1
                < self.nodes@.len() by {
                assert(old(self).edges().contains(e));
            }
        }
        idx
    }

    /// Add one control-flow edge between existing nodes.
    pub fn add_edge_between(&mut self, from: usize, to: usize)
        requires
            old(self).wf(),
            from < old(self).nodes@.len(),
            to < old(self).nodes@.len(),
            old(self).edges().len() < 0xFFFF_FFFE,
        ensures
            final(self).wf(),
            final(self).edges() == old(self).edges().push((from, to)),
            final(self).nodes == old(self).nodes,
            final(self).weight == old(self).weight,
            cfg_node_count(final(self).graph) == cfg_node_count(old(self).graph),
    {
        cfg_add_edge(&mut self.graph, from, to);
        proof {
            assert forall|e: (usize, usize)| #[trigger]
                self.edges().contains(e) implies e.0 < self.nodes@.len() && e.1
                < self.nodes@.len() by {
                if e != ((from, to)) {
                    assert(old(self).edges().contains(e));
                }
            }
        }
    }

    /// The fact that should flow into node `i` at a fixed point: nothing
    /// for the entry node (node 0), otherwise the join of the predecessors'
    /// out facts.
    pub open spec fn expected_in(self, i: int) -> Seq<bool> {
        let n = self.weight.assignment_count as nat;
        if i == 0 {
            zero_bits(n)
        } else {
            Seq::new(
                n,
                |d: int|
                    exists|p: usize|
                        #[trigger] self.edges().contains((p, i as usize))
                            && self.nodes@[p as int].reach_out@[d],
            )
        }
    }

    /// Node `i` is converged: its in fact is the join over its
    /// predecessors, and its out fact is the transfer of its in fact.
    pub open spec fn node_converged(self, i: int) -> bool {
        &&& self.nodes@[i].reach_in@ == self.expected_in(i)
        &&& self.nodes@[i].reach_out@ == block_out(
            self.nodes@[i].reach_in@,
            self.nodes@[i].irs@,
            self.weight,
        )
    }

    /// The whole graph is at a fixed point of the analysis.
    pub open spec fn is_fixed_point(self) -> bool {
        forall|i: int| 0 <= i < self.nodes@.len() ==> self.node_converged(i)
    }

    /// Join the out facts of `i`'s predecessors (zero for the entry node).
    fn compute_in(&self, i: usize) -> (r: ReachLattice)
        requires
            self.wf(),
            i < self.nodes@.len(),
        ensures
            r@ == self.expected_in(i as int),
            r@.len() == self.weight.assignment_count,
    {
        let count = self.weight.assignment_count;
        let mut acc = ReachLattice::new(count);
        if i == 0 {
            return acc;
        }
        let preds = cfg_preds(&self.graph, i);
        let ghost ps = preds@;
        let mut j: usize = 0;
        while j < preds.len()
            invariant
                j <= ps.len(),
                ps == preds@,
                self.wf(),
                i < self.nodes@.len(),
                forall|k: int| 0 <= k < ps.len() ==> ps[k] < self.nodes@.len(),
                acc@.len() == self.weight.assignment_count,
                forall|d: int|
                    0 <= d < acc@.len() ==> acc@[d] == exists|k: int|
                        0 <= k < j && self.nodes@[#[trigger] ps[k] as int].reach_out@[d],
            decreases ps.len() - j,
        {
            let p = preds[j];
            bits_union_with(&mut acc.value, &self.nodes[p].reach_out.value);
            j += 1;
            proof {
                assert forall|d: int| 0 <= d < acc@.len() implies acc@[d] == exists|k: int|
                    0 <= k < j && self.nodes@[#[trigger] ps[k] as int].reach_out@[d] by {
                    if self.nodes@[ps[j - 1] as int].reach_out@[d] {
                        assert(ps[j - 1] < self.nodes@.len());
                    }
                }
            }
        }
        proof {
            assert forall|d: int| 0 <= d < acc@.len() implies acc@[d] == self.expected_in(
                i as int,
            )[d] by {
                if acc@[d] {
                    let k = choose|k: int|
                        0 <= k < ps.len() && self.nodes@[#[trigger] ps[k] as int].reach_out@[d];
                    assert(ps.contains(ps[k]));
                    assert(self.edges().contains((ps[k], i)));
                } else {
                    if self.expected_in(i as int)[d] {
                        let p = choose|p: usize|
                            #[trigger] self.edges().contains((p, i))
                                && self.nodes@[p as int].reach_out@[d];
                        assert(ps.contains(p));
                        let k = choose|k: int| 0 <= k < ps.len() && ps[k] == p;
                        assert(self.nodes@[ps[k] as int].reach_out@[d]);
                    }
                }
            }
            assert(acc@ =~= self.expected_in(i as int));
        }
        acc
    }

    /// The worklist fixed-point solver, forward direction: sweep all
    /// blocks, recomputing each in fact as the join of its predecessors'
    /// outs and each out fact through the transfer function, until one
    /// full sweep changes nothing. From facts that under-approximate
    /// their equations every recomputation only grows a fact, so the
    /// sweeps climb the finite lattice (2 x nodes x assignment_count bits
    /// in all) and the solver reaches the fixed point: it always
    /// converges and says so.
    ///
    /// On an already-converged graph the first sweep changes nothing and
    /// the facts come out identical (fixed-point idempotence).
    pub fn solve_forward(&mut self) -> (converged: bool)
        requires
            old(self).wf(),
            old(self).under_approx(),
        ensures
            final(self).wf(),
            old(self).same_shape(*final(self)),
            converged,
            final(self).is_fixed_point(),
            final(self).under_approx(),
            old(self).is_fixed_point() ==> *final(self) == *old(self),
    {
        let ghost orig = *self;
        let n = self.nodes.len();
        if n == 0 {
            return true;
        }
        let count = self.weight.assignment_count;
        let ghost capacity = 2 * (count as int) * (n as int);
        proof {
            lemma_total_bound(self.nodes@, count as nat);
        }
        let mut converged = false;
        while !converged
            invariant
                self.wf(),
                self.under_approx(),
                orig.same_shape(*self),
                n == self.nodes@.len(),
                count == self.weight.assignment_count,
                capacity == 2 * (count as int) * (n as int),
                total_bits(self.nodes@) <= capacity,
                converged ==> self.is_fixed_point(),
                orig.is_fixed_point() ==> *self == orig,
            decreases 2 * (capacity - total_bits(self.nodes@)) + (if converged {
                0int
            } else {
                1int
            }),
        {
            let ghost sweep_start = *self;
            let mut changed = false;
            let mut i: usize = 0;
            while i < n
                invariant
                    i <= n,
                    self.wf(),
                    self.under_approx(),
                    orig.same_shape(*self),
                    sweep_start.same_shape(*self),
                    sweep_start.wf(),
                    n == self.nodes@.len(),
                    count == self.weight.assignment_count,
                    facts_le(sweep_start.nodes@, self.nodes@),
                    !changed ==> *self == sweep_start,
                    !changed ==> forall|j: int| 0 <= j < i ==> self.node_converged(j),
                    changed ==> total_bits(self.nodes@) > total_bits(sweep_start.nodes@),
                    orig.is_fixed_point() ==> *self == orig && !changed,
                decreases n - i,
            {
                let ghost pre_in = *self;
                let new_in = self.compute_in(i);
                proof {
                    if orig.is_fixed_point() {
                        assert(orig.node_converged(i as int));
                    }
                    assert(bits_le(self.nodes@[i as int].reach_in@, new_in@));
                }
                let same_in = bits_equal(&new_in.value, &self.nodes[i].reach_in.value);
                if !same_in {
                    proof {
                        lemma_count_lt(self.nodes@[i as int].reach_in@, new_in@);
                        lemma_total_le(sweep_start.nodes@, self.nodes@);
                    }
                    let ghost pre_nodes = self.nodes@;
                    let node = &mut self.nodes[i];
                    node.reach_in = new_in;
                    changed = true;
                    proof {
                        let nd = self.nodes@[i as int];
                        assert(self.nodes@ == pre_nodes.update(i as int, nd));
                        assert(nd.reach_out == pre_nodes[i as int].reach_out);
                        assert(nd.irs == pre_nodes[i as int].irs);
                        lemma_total_update(pre_nodes, i as int, nd);
                        assert(total_bits(self.nodes@) > total_bits(sweep_start.nodes@));
                        assert forall|j: int|
                            0 <= j < self.nodes@.len() implies (#[trigger] self.nodes@[j]).reach_out@
                            == pre_in.nodes@[j].reach_out@ by {}
                        assert forall|j: int| 0 <= j < self.nodes@.len() implies {
                            &&& bits_le(
                                (#[trigger] self.nodes@[j]).reach_in@,
                                self.expected_in(j),
                            )
                            &&& bits_le(
                                self.nodes@[j].reach_out@,
                                block_out(
                                    self.nodes@[j].reach_in@,
                                    self.nodes@[j].irs@,
                                    self.weight,
                                ),
                            )
                        } by {
                            lemma_expected_in_same_outs(pre_in, *self, j);
                            if j == i {
                                lemma_block_out_monotone(
                                    pre_nodes[i as int].reach_in@,
                                    new_in@,
                                    nd.irs@,
                                    self.weight,
                                );
                                lemma_bits_le_trans(
                                    nd.reach_out@,
                                    block_out(
                                        pre_nodes[i as int].reach_in@,
                                        nd.irs@,
                                        self.weight,
                                    ),
                                    block_out(new_in@, nd.irs@, self.weight),
                                );
                            }
                        }
                        assert forall|j: int| 0 <= j < n implies bits_le(
                            (#[trigger] sweep_start.nodes@[j]).reach_in@,
                            self.nodes@[j].reach_in@,
                        ) && bits_le(
                            sweep_start.nodes@[j].reach_out@,
                            self.nodes@[j].reach_out@,
                        ) by {
                            if j == i {
                                lemma_bits_le_trans(
                                    sweep_start.nodes@[j].reach_in@,
                                    pre_nodes[i as int].reach_in@,
                                    new_in@,
                                );
                            }
                        }
                    }
                }
                let ghost pre_out = *self;
                let new_out = transfer_reach(
                    &self.nodes[i].reach_in,
                    &self.nodes[i].irs,
                    &self.weight,
                );
                proof {
                    assert(bits_le(self.nodes@[i as int].reach_out@, new_out@));
                }
                let same_out = bits_equal(&new_out.value, &self.nodes[i].reach_out.value);
                if !same_out {
                    proof {
                        lemma_count_lt(self.nodes@[i as int].reach_out@, new_out@);
                        lemma_total_le(sweep_start.nodes@, self.nodes@);
                    }
                    let ghost pre_nodes = self.nodes@;
                    let node = &mut self.nodes[i];
                    node.reach_out = new_out;
                    changed = true;
                    proof {
                        let nd = self.nodes@[i as int];
                        assert(self.nodes@ == pre_nodes.update(i as int, nd));
                        assert(nd.reach_in == pre_nodes[i as int].reach_in);
                        assert(nd.irs == pre_nodes[i as int].irs);
                        lemma_total_update(pre_nodes, i as int, nd);
                        assert(total_bits(self.nodes@) > total_bits(sweep_start.nodes@));
                        assert forall|j: int| 0 <= j < n implies bits_le(
                            (#[trigger] pre_out.nodes@[j]).reach_out@,
                            self.nodes@[j].reach_out@,
                        ) by {}
                        assert forall|j: int| 0 <= j < self.nodes@.len() implies {
                            &&& bits_le(
                                (#[trigger] self.nodes@[j]).reach_in@,
                                self.expected_in(j),
                            )
                            &&& bits_le(
                                self.nodes@[j].reach_out@,
                                block_out(
                                    self.nodes@[j].reach_in@,
                                    self.nodes@[j].irs@,
                                    self.weight,
                                ),
                            )
                        } by {
                            lemma_expected_in_monotone(pre_out, *self, j);
                            lemma_bits_le_trans(
                                self.nodes@[j].reach_in@,
                                pre_out.expected_in(j),
                                self.expected_in(j),
                            );
                        }
                        assert forall|j: int| 0 <= j < n implies bits_le(
                            (#[trigger] sweep_start.nodes@[j]).reach_in@,
                            self.nodes@[j].reach_in@,
                        ) && bits_le(
                            sweep_start.nodes@[j].reach_out@,
                            self.nodes@[j].reach_out@,
                        ) by {
                            if j == i {
                                lemma_bits_le_trans(
                                    sweep_start.nodes@[j].reach_out@,
                                    pre_nodes[i as int].reach_out@,
                                    new_out@,
                                );
                            }
                        }
                    }
                }
                i += 1;
                proof {
                    if !changed {
                        assert(self.node_converged(i - 1));
                    }
                }
            }
            if !changed {
                converged = true;
            }
            proof {
                lemma_total_bound(self.nodes@, count as nat);
            }
        }
        converged
    }
}

} // verus!

verus! {

/// Pointwise order on bit sequences of one width: `b` holds every bit `a`
/// holds.
pub open spec fn bits_le(a: Seq<bool>, b: Seq<bool>) -> bool {
    &&& a.len() == b.len()
    &&& forall|d: int| 0 <= d < a.len() && #[trigger] a[d] ==> b[d]
}

pub proof fn lemma_bits_le_trans(a: Seq<bool>, b: Seq<bool>, c: Seq<bool>)
    requires
        bits_le(a, b),
        bits_le(b, c),
    ensures
        bits_le(a, c),
{
}

/// How many bits of a fact are set.
pub open spec fn count_true(s: Seq<bool>) -> nat
    decreases s.len(),
{
    if s.len() == 0 {
        0
    } else {
        count_true(s.drop_last()) + (if s.last() {
            1nat
        } else {
            0nat
        })
    }
}

pub proof fn lemma_count_bound(s: Seq<bool>)
    ensures
        count_true(s) <= s.len(),
    decreases s.len(),
{
    if s.len() > 0 {
        lemma_count_bound(s.drop_last());
    }
}

pub proof fn lemma_count_le(a: Seq<bool>, b: Seq<bool>)
    requires
        bits_le(a, b),
    ensures
        count_true(a) <= count_true(b),
    decreases a.len(),
{
    if a.len() > 0 {
        assert(bits_le(a.drop_last(), b.drop_last()));
        lemma_count_le(a.drop_last(), b.drop_last());
    }
}

/// A strictly larger fact has strictly more set bits.
pub proof fn lemma_count_lt(a: Seq<bool>, b: Seq<bool>)
    requires
        bits_le(a, b),
        a != b,
    ensures
        count_true(a) < count_true(b),
    decreases a.len(),
{
    if a.len() == 0 {
        assert(a =~= b);
    } else if a.last() == b.last() {
        if a.drop_last() == b.drop_last() {
            assert forall|d: int| 0 <= d < a.len() implies a[d] == b[d] by {
                if d < a.len() - 1 {
                    assert(a.drop_last()[d] == b.drop_last()[d]);
                }
            }
            assert(a =~= b);
        } else {
            assert(bits_le(a.drop_last(), b.drop_last()));
            lemma_count_lt(a.drop_last(), b.drop_last());
        }
    } else {
        assert(!a.last() && b.last());
        assert(bits_le(a.drop_last(), b.drop_last()));
        lemma_count_le(a.drop_last(), b.drop_last());
    }
}

/// Total set bits over all facts of all nodes: the position of a state in
/// the finite lattice the solver climbs.
pub open spec fn total_bits(nodes: Seq<CodeBlockAnalysisNode>) -> nat
    decreases nodes.len(),
{
    if nodes.len() == 0 {
        0
    } else {
        total_bits(nodes.drop_last()) + count_true(nodes.last().reach_in@) + count_true(
            nodes.last().reach_out@,
        )
    }
}

/// Pointwise order on whole fact assignments.
pub open spec fn facts_le(a: Seq<CodeBlockAnalysisNode>, b: Seq<CodeBlockAnalysisNode>) -> bool {
    &&& a.len() == b.len()
    &&& forall|j: int|
        0 <= j < a.len() ==> bits_le((#[trigger] a[j]).reach_in@, b[j].reach_in@) && bits_le(
            a[j].reach_out@,
            b[j].reach_out@,
        )
}

pub proof fn lemma_total_le(a: Seq<CodeBlockAnalysisNode>, b: Seq<CodeBlockAnalysisNode>)
    requires
        facts_le(a, b),
    ensures
        total_bits(a) <= total_bits(b),
    decreases a.len(),
{
    if a.len() > 0 {
        assert(facts_le(a.drop_last(), b.drop_last()));
        lemma_total_le(a.drop_last(), b.drop_last());
        lemma_count_le(a.last().reach_in@, b.last().reach_in@);
        lemma_count_le(a.last().reach_out@, b.last().reach_out@);
    }
}

/// Replacing one node's facts changes the total by exactly that node's
/// contribution.
pub proof fn lemma_total_update(
    nodes: Seq<CodeBlockAnalysisNode>,
    i: int,
    nd: CodeBlockAnalysisNode,
)
    requires
        0 <= i < nodes.len(),
    ensures
        total_bits(nodes.update(i, nd)) + count_true(nodes[i].reach_in@) + count_true(
            nodes[i].reach_out@,
        ) == total_bits(nodes) + count_true(nd.reach_in@) + count_true(nd.reach_out@),
    decreases nodes.len(),
{
    let u = nodes.update(i, nd);
    if i == nodes.len() - 1 {
        assert(u.drop_last() =~= nodes.drop_last());
        assert(u.last() == nd);
    } else {
        assert(u.drop_last() =~= nodes.drop_last().update(i, nd));
        assert(u.last() == nodes.last());
        lemma_total_update(nodes.drop_last(), i, nd);
    }
}

/// With every fact of width `cnt`, the total is bounded by the lattice's
/// height.
pub proof fn lemma_total_bound(nodes: Seq<CodeBlockAnalysisNode>, cnt: nat)
    requires
        forall|j: int|
            0 <= j < nodes.len() ==> (#[trigger] nodes[j]).reach_in@.len() == cnt
                && nodes[j].reach_out@.len() == cnt,
    ensures
        total_bits(nodes) <= 2 * cnt * nodes.len(),
    decreases nodes.len(),
{
    if nodes.len() > 0 {
        assert(forall|j: int|
            0 <= j < nodes.drop_last().len() ==> (#[trigger] nodes.drop_last()[j]).reach_in@.len()
                == cnt && nodes.drop_last()[j].reach_out@.len() == cnt);
        lemma_total_bound(nodes.drop_last(), cnt);
        lemma_count_bound(nodes.last().reach_in@);
        lemma_count_bound(nodes.last().reach_out@);
        assert(2 * cnt * (nodes.len() - 1) + 2 * cnt == 2 * cnt * nodes.len())
            by (nonlinear_arith);
    }
}

/// The block transfer is monotone in the incoming fact.
pub proof fn lemma_block_out_monotone(
    a: Seq<bool>,
    b: Seq<bool>,
    irs: Seq<IR>,
    w: CodeBlockGraphWeight,
)
    requires
        bits_le(a, b),
        a.len() == w.assignment_count,
    ensures
        bits_le(block_out(a, irs, w), block_out(b, irs, w)),
{
}

impl DataFlowGraph {
    /// The facts under-approximate their dataflow equations: each in fact
    /// at most the join of its predecessors' outs, each out fact at most
    /// the transfer of its in fact. A freshly built graph (all facts
    /// clear) and a converged graph both satisfy this; the solver keeps it
    /// while every fact grows toward the fixed point.
    pub open spec fn under_approx(self) -> bool {
        forall|i: int|
            0 <= i < self.nodes@.len() ==> {
                &&& bits_le((#[trigger] self.nodes@[i]).reach_in@, self.expected_in(i))
                &&& bits_le(
                    self.nodes@[i].reach_out@,
                    block_out(self.nodes@[i].reach_in@, self.nodes@[i].irs@, self.weight),
                )
            }
    }
}

/// Two graphs with the same topology and the same out facts feed every
/// node the same join.
pub proof fn lemma_expected_in_same_outs(a: DataFlowGraph, b: DataFlowGraph, i: int)
    requires
        a.wf(),
        a.graph == b.graph,
        a.weight == b.weight,
        a.nodes@.len() == b.nodes@.len(),
        forall|j: int|
            0 <= j < a.nodes@.len() ==> (#[trigger] a.nodes@[j]).reach_out@
                == b.nodes@[j].reach_out@,
    ensures
        a.expected_in(i) == b.expected_in(i),
{
    if i != 0 {
        assert forall|d: int|
            0 <= d < a.weight.assignment_count implies a.expected_in(i)[d] == b.expected_in(
            i,
        )[d] by {
            if a.expected_in(i)[d] {
                let p = choose|p: usize|
                    #[trigger] a.edges().contains((p, i as usize)) && a.nodes@[p as int].reach_out@[d];
                assert(p < a.nodes@.len());
                assert(b.edges().contains((p, i as usize)));
                assert(b.nodes@[p as int].reach_out@[d]);
            }
            if b.expected_in(i)[d] {
                let p = choose|p: usize|
                    #[trigger] b.edges().contains((p, i as usize)) && b.nodes@[p as int].reach_out@[d];
                assert(a.edges().contains((p, i as usize)));
                assert(p < a.nodes@.len());
                assert(a.nodes@[p as int].reach_out@[d]);
            }
        }
        assert(a.expected_in(i) =~= b.expected_in(i));
    }
}

/// Growing out facts can only grow the join flowing into a node.
pub proof fn lemma_expected_in_monotone(a: DataFlowGraph, b: DataFlowGraph, i: int)
    requires
        a.graph == b.graph,
        a.weight == b.weight,
        a.nodes@.len() == b.nodes@.len(),
        a.wf(),
        forall|j: int|
            0 <= j < a.nodes@.len() ==> bits_le(
                (#[trigger] a.nodes@[j]).reach_out@,
                b.nodes@[j].reach_out@,
            ),
    ensures
        bits_le(a.expected_in(i), b.expected_in(i)),
{
    if i != 0 {
        assert forall|d: int|
            0 <= d < a.expected_in(i).len() && #[trigger] a.expected_in(i)[d] implies b.expected_in(
            i,
        )[d] by {
            let p = choose|p: usize|
                #[trigger] a.edges().contains((p, i as usize)) && a.nodes@[p as int].reach_out@[d];
            assert(p < a.nodes@.len());
            assert(bits_le(a.nodes@[p as int].reach_out@, b.nodes@[p as int].reach_out@));
            assert(b.nodes@[p as int].reach_out@[d]);
            assert(b.edges().contains((p, i as usize)));
        }
    }
}

} // verus!
