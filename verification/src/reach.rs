//! The reaching-definitions instantiation of the dataflow engine: a
//! bit-vector fact per block (one bit per assignment declaration number),
//! gen/kill masks per instruction, and the block transfer function
//! `out = (in ∩ kill_mask) ∪ gen` built by a backward scan.

use fixedbitset::FixedBitSet;
use vstd::prelude::*;

use crate::bits::{
    bit_seq, bits_clone, bits_contains, bits_equal, bits_intersect_with, bits_len, bits_new,
    bits_set, bits_toggle_all, bits_union_with,
};
use crate::block::CodeBlockGraphWeight;
use crate::ir::IR;
use crate::lattice::{ProductLattice, SemiLattice};

verus! {

broadcast use vstd::std_specs::vec::group_vec_axioms;

pub open spec fn zero_bits(n: nat) -> Seq<bool> {
    Seq::new(n, |i: int| false)
}

pub open spec fn one_bits(n: nat) -> Seq<bool> {
    Seq::new(n, |i: int| true)
}

/// Whether instruction `ir` generates declaration number `i`: it is an
/// assignment whose own declaration number is `i`.
pub open spec fn gen_bit(ir: IR, i: int) -> bool {
    &&& ir is Assignment
    &&& ir->Assignment_2.declaration_number is Some
    &&& ir->Assignment_2.declaration_number->0 == i
}

/// Whether instruction `ir` kills declaration number `i`: it is an
/// assignment whose destination is also assigned by declaration `i`,
/// except the instruction's own declaration number.
pub open spec fn kill_bit(ir: IR, w: CodeBlockGraphWeight, i: int) -> bool {
    &&& ir is Assignment
    &&& w.decls_of(ir->Assignment_0).contains(i as usize)
    &&& 0 <= i
    &&& !gen_bit(ir, i)
}

/// What the per-instruction helpers need of an instruction: an assignment
/// carries a declaration number inside the universe, and its destination is
/// recorded in the variable assignment map.
pub open spec fn ir_wf(ir: IR, w: CodeBlockGraphWeight) -> bool {
    ir is Assignment ==> {
        &&& ir->Assignment_2.declaration_number is Some
        &&& ir->Assignment_2.declaration_number->0 < w.assignment_count
        &&& w.has_var(ir->Assignment_0)
    }
}

/// The state of the backward scan after the instructions `k..` of a block
/// have been processed: the accumulated gen bits and kill mask. An
/// instruction's gen bit survives only through the kill masks of the
/// instructions after it (a later redefinition of the same space kills it).
pub open spec fn scan_state(irs: Seq<IR>, k: int, w: CodeBlockGraphWeight) -> (Seq<bool>, Seq<
    bool,
>)
    decreases irs.len() - k,
{
    let n = w.assignment_count as nat;
    if k < 0 || k >= irs.len() {
        (zero_bits(n), one_bits(n))
    } else {
        let rest = scan_state(irs, k + 1, w);
        let m2 = Seq::new(n, |i: int| rest.1[i] && !kill_bit(irs[k], w, i));
        let g2 = Seq::new(n, |i: int| rest.0[i] || (gen_bit(irs[k], i) && m2[i]));
        (g2, m2)
    }
}

/// The block transfer of reaching definitions:
/// `out = (in ∩ kill_mask) ∪ gen` over the whole block.
pub open spec fn block_out(inb: Seq<bool>, irs: Seq<IR>, w: CodeBlockGraphWeight) -> Seq<bool> {
    let st = scan_state(irs, 0, w);
    Seq::new(w.assignment_count as nat, |i: int| (inb[i] && st.1[i]) || st.0[i])
}

/// A reaching-definitions fact: bit `d` says declaration number `d` may
/// still be live.
#[derive(Debug)]
pub struct ReachLattice {
    pub value: FixedBitSet,
}

impl View for ReachLattice {
    type V = Seq<bool>;

    open spec fn view(&self) -> Seq<bool> {
        bit_seq(self.value)
    }
}

impl ReachLattice {
    /// The empty fact over a universe of `capacity` declaration numbers.
    pub fn new(capacity: usize) -> (r: Self)
        ensures
            r@ == zero_bits(capacity as nat),
    {
        ReachLattice { value: bits_new(capacity) }
    }

    /// Only the instruction's own declaration number is set.
    pub fn gen_var(ir: &IR, code_block_graph_weight: &CodeBlockGraphWeight) -> (r: Self)
        requires
            ir_wf(*ir, *code_block_graph_weight),
        ensures
            r@ == Seq::new(
                code_block_graph_weight.assignment_count as nat,
                |i: int| gen_bit(*ir, i),
            ),
    {
        let mut set = bits_new(code_block_graph_weight.assignment_count);
        if let IR::Assignment(_, _, info) = ir {
            if let Some(declaration_number) = info.declaration_number {
                bits_set(&mut set, declaration_number, true);
            }
        }
        proof {
            assert(bit_seq(set) =~= Seq::new(
                code_block_graph_weight.assignment_count as nat,
                |i: int| gen_bit(*ir, i),
            ));
        }
        ReachLattice { value: set }
    }

    /// All 0s, but killed declaration numbers are 1.
    pub fn kill_var(ir: &IR, code_block_graph_weight: &CodeBlockGraphWeight) -> (r: Self)
        requires
            code_block_graph_weight.map_wf(),
            ir_wf(*ir, *code_block_graph_weight),
        ensures
            r@ == Seq::new(
                code_block_graph_weight.assignment_count as nat,
                |i: int| kill_bit(*ir, *code_block_graph_weight, i),
            ),
    {
        let w = code_block_graph_weight;
        let mut set = bits_new(w.assignment_count);
        if let IR::Assignment(dest, _, info) = ir {
            let decls = match w.lookup_decls(*dest) {
                Some(v) => v,
                None => unreached(),
            };
            let ghost ds = decls@;
            let mut j: usize = 0;
            while j < decls.len()
                invariant
                    j <= ds.len(),
                    ds == decls@,
                    ds == w.decls_of(ir->Assignment_0),
                    w.map_wf(),
                    bit_seq(set).len() == w.assignment_count,
                    forall|i: int|
                        0 <= i < w.assignment_count ==> bit_seq(set)[i] == exists|jj: int|
                            0 <= jj < j && ds[jj] == i,
                decreases ds.len() - j,
            {
                let d = decls[j];
                proof {
                    assert(ds[j as int] < w.assignment_count);
                }
                bits_set(&mut set, d, true);
                j += 1;
                proof {
                    assert forall|i: int| 0 <= i < w.assignment_count implies bit_seq(set)[i]
                        == exists|jj: int| 0 <= jj < j && ds[jj] == i by {
                        if i == d {
                            assert(ds[j - 1] == i);
                        }
                    }
                }
            }
            let own = match info.declaration_number {
                Some(d) => d,
                None => unreached(),
            };
            bits_set(&mut set, own, false);
            proof {
                assert forall|i: int| 0 <= i < w.assignment_count implies bit_seq(set)[i]
                    == kill_bit(*ir, *w, i) by {
                    if i != own {
                        assert(bit_seq(set)[i] == (exists|jj: int|
                            0 <= jj < ds.len() && ds[jj] == i));
                        assert((exists|jj: int| 0 <= jj < ds.len() && ds[jj] == i) == ds.contains(
                            i as usize,
                        ));
                    }
                }
                assert(bit_seq(set) =~= Seq::new(
                    w.assignment_count as nat,
                    |i: int| kill_bit(*ir, *w, i),
                ));
            }
        } else {
            proof {
                assert(bit_seq(set) =~= Seq::new(
                    w.assignment_count as nat,
                    |i: int| kill_bit(*ir, *w, i),
                ));
            }
        }
        ReachLattice { value: set }
    }

    /// All 1s, but killed declaration numbers are 0.
    pub fn kill_mask_var(ir: &IR, code_block_graph_weight: &CodeBlockGraphWeight) -> (r: Self)
        requires
            code_block_graph_weight.map_wf(),
            ir_wf(*ir, *code_block_graph_weight),
        ensures
            r@ == Seq::new(
                code_block_graph_weight.assignment_count as nat,
                |i: int| !kill_bit(*ir, *code_block_graph_weight, i),
            ),
    {
        let mut set = Self::kill_var(ir, code_block_graph_weight);
        bits_toggle_all(&mut set.value);
        proof {
            assert(set@ =~= Seq::new(
                code_block_graph_weight.assignment_count as nat,
                |i: int| !kill_bit(*ir, *code_block_graph_weight, i),
            ));
        }
        set
    }
}

impl SemiLattice for ReachLattice {
    open spec fn joinable(&self, other: &ReachLattice) -> bool {
        self@.len() == other@.len()
    }

    open spec fn same_fact(&self, other: &ReachLattice) -> bool {
        self@ == other@
    }

    open spec fn is_meet(&self, other: &ReachLattice, r: &ReachLattice) -> bool {
        r@ == Seq::new(self@.len(), |i: int| self@[i] || other@[i])
    }

    fn meet(&self, other: &ReachLattice) -> (r: ReachLattice) {
        let mut res_value = bits_clone(&self.value);
        bits_union_with(&mut res_value, &other.value);
        ReachLattice { value: res_value }
    }

    fn meet_with(&mut self, other: &ReachLattice) -> (changed: bool) {
        let mut joined = bits_clone(&self.value);
        bits_union_with(&mut joined, &other.value);
        let same = bits_equal(&joined, &self.value);
        if same {
            proof {
                assert(self@ =~= Seq::new(self@.len(), |i: int| self@[i] || other@[i]));
            }
            false
        } else {
            self.value = joined;
            true
        }
    }
}

impl ProductLattice<bool> for ReachLattice {
    open spec fn components(&self) -> Seq<bool> {
        self@
    }

    fn get(&self, index: usize) -> (r: Option<bool>) {
        if index < bits_len(&self.value) {
            Some(bits_contains(&self.value, index))
        } else {
            None
        }
    }
}

/// The whole-block forward transfer, scanning the instructions in reverse:
/// the kill mask accumulates by intersection, and each instruction's gen
/// bit joins only through the mask of the instructions after it.
pub fn transfer_reach(in_value: &ReachLattice, irs: &Vec<IR>, w: &CodeBlockGraphWeight) -> (out:
    ReachLattice)
    requires
        w.map_wf(),
        in_value@.len() == w.assignment_count,
        forall|k: int| 0 <= k < irs@.len() ==> ir_wf(#[trigger] irs@[k], *w),
    ensures
        out@ == block_out(in_value@, irs@, *w),
        out@.len() == w.assignment_count,
{
    let count = w.assignment_count;
    let ghost n = count as nat;
    let mut current_gen = ReachLattice::new(count);
    let mut current_kill_mask = ReachLattice::new(count);
    bits_toggle_all(&mut current_kill_mask.value);
    proof {
        assert(current_kill_mask@ =~= one_bits(n));
    }
    let mut k = irs.len();
    while k > 0
        invariant
            k <= irs@.len(),
            w.map_wf(),
            forall|kk: int| 0 <= kk < irs@.len() ==> ir_wf(#[trigger] irs@[kk], *w),
            current_gen@ == scan_state(irs@, k as int, *w).0,
            current_kill_mask@ == scan_state(irs@, k as int, *w).1,
            current_gen@.len() == w.assignment_count,
            current_kill_mask@.len() == w.assignment_count,
        decreases k,
    {
        k -= 1;
        let ir = &irs[k];
        let ir_kill_mask = ReachLattice::kill_mask_var(ir, w);
        let mut ir_gen = ReachLattice::gen_var(ir, w);
        bits_intersect_with(&mut current_kill_mask.value, &ir_kill_mask.value);
        bits_intersect_with(&mut ir_gen.value, &current_kill_mask.value);
        bits_union_with(&mut current_gen.value, &ir_gen.value);
        proof {
            let st = scan_state(irs@, k as int, *w);
            assert(current_kill_mask@ =~= st.1);
            assert(current_gen@ =~= st.0);
        }
    }
    let mut res = ReachLattice { value: bits_clone(&in_value.value) };
    bits_intersect_with(&mut res.value, &current_kill_mask.value);
    bits_union_with(&mut res.value, &current_gen.value);
    proof {
        assert(res@ =~= block_out(in_value@, irs@, *w));
    }
    res
}

} // verus!

verus! {

/// Gen/kill law for a straight-line block without redefinition: three
/// assignments to three distinct spaces, each the only definition of its
/// space, and nothing reaching the block; all three definitions flow out,
/// and nothing else.
pub proof fn lemma_straight_line_gen(
    irs: Seq<IR>,
    w: CodeBlockGraphWeight,
    v1: usize,
    v2: usize,
    v3: usize,
    d1: usize,
    d2: usize,
    d3: usize,
    inb: Seq<bool>,
)
    requires
        irs.len() == 3,
        crate::ir::is_assign_with(irs[0], v1, d1),
        crate::ir::is_assign_with(irs[1], v2, d2),
        crate::ir::is_assign_with(irs[2], v3, d3),
        v1 != v2,
        v2 != v3,
        v1 != v3,
        d1 < d2,
        d2 < d3,
        d3 < w.assignment_count,
        w.decls_of(v1) == seq![d1],
        w.decls_of(v2) == seq![d2],
        w.decls_of(v3) == seq![d3],
        inb == zero_bits(w.assignment_count as nat),
    ensures
        forall|i: int|
            0 <= i < w.assignment_count ==> (block_out(inb, irs, w)[i] == (i == d1 || i == d2
                || i == d3)),
{
    let n = w.assignment_count as nat;
    assert forall|i: int| 0 <= i < n implies !kill_bit(irs[0], w, i) && !kill_bit(irs[1], w, i)
        && !kill_bit(irs[2], w, i) by {
        if w.decls_of(v1).contains(i as usize) {
            assert(seq![d1][0] == d1);
            assert(i == d1);
        }
        if w.decls_of(v2).contains(i as usize) {
            assert(i == d2);
        }
        if w.decls_of(v3).contains(i as usize) {
            assert(i == d3);
        }
    }
    let st3 = scan_state(irs, 3, w);
    let st2 = scan_state(irs, 2, w);
    let st1 = scan_state(irs, 1, w);
    let st0 = scan_state(irs, 0, w);
    assert forall|i: int| 0 <= i < n implies st0.1[i] && (st0.0[i] == (i == d1 || i == d2 || i
        == d3)) by {
        assert(st3.0[i] == false && st3.1[i] == true);
        assert(st2.1[i] == true);
        assert(st2.0[i] == gen_bit(irs[2], i));
        assert(st1.1[i] == true);
        assert(st1.0[i] == (gen_bit(irs[2], i) || gen_bit(irs[1], i)));
        assert(st0.1[i] == true);
        assert(st0.0[i] == (gen_bit(irs[2], i) || gen_bit(irs[1], i) || gen_bit(irs[0], i)));
    }
    assert forall|i: int|
        0 <= i < n implies (block_out(inb, irs, w)[i] == (i == d1 || i == d2 || i == d3)) by {
        assert(!inb[i]);
    }
}

/// Gen/kill law with redefinition: the first and third assignments define
/// the same space, the second a different one, and nothing reaches the
/// block; the first definition is killed by the third, so exactly the
/// second and third flow out.
pub proof fn lemma_straight_line_kill(
    irs: Seq<IR>,
    w: CodeBlockGraphWeight,
    v: usize,
    u: usize,
    d1: usize,
    d2: usize,
    d3: usize,
    inb: Seq<bool>,
)
    requires
        irs.len() == 3,
        crate::ir::is_assign_with(irs[0], v, d1),
        crate::ir::is_assign_with(irs[1], u, d2),
        crate::ir::is_assign_with(irs[2], v, d3),
        v != u,
        d1 < d2,
        d2 < d3,
        d3 < w.assignment_count,
        w.decls_of(v) == seq![d1, d3],
        w.decls_of(u) == seq![d2],
        inb == zero_bits(w.assignment_count as nat),
    ensures
        forall|i: int|
            0 <= i < w.assignment_count ==> (block_out(inb, irs, w)[i] == (i == d2 || i == d3)),
{
    let n = w.assignment_count as nat;
    assert(seq![d1, d3][0] == d1 && seq![d1, d3][1] == d3);
    assert forall|i: int| 0 <= i < n implies (kill_bit(irs[2], w, i) == (i == d1)) && (kill_bit(
        irs[1],
        w,
        i,
    ) == false) && (kill_bit(irs[0], w, i) == (i == d3)) by {
        if w.decls_of(v).contains(i as usize) {
            assert(i == d1 || i == d3);
        }
        if i == d1 {
            assert(w.decls_of(v)[0] == d1 as usize);
            assert(w.decls_of(v).contains(d1));
        }
        if i == d3 {
            assert(w.decls_of(v)[1] == d3 as usize);
            assert(w.decls_of(v).contains(d3));
        }
        if w.decls_of(u).contains(i as usize) {
            assert(i == d2);
        }
    }
    let st3 = scan_state(irs, 3, w);
    let st2 = scan_state(irs, 2, w);
    let st1 = scan_state(irs, 1, w);
    let st0 = scan_state(irs, 0, w);
    assert forall|i: int| 0 <= i < n implies (st0.0[i] == (i == d2 || i == d3)) by {
        assert(st3.0[i] == false && st3.1[i] == true);
        assert(st2.1[i] == (i != d1));
        assert(st2.0[i] == gen_bit(irs[2], i));
        assert(st1.1[i] == (i != d1));
        assert(st1.0[i] == (gen_bit(irs[2], i) || (gen_bit(irs[1], i) && i != d1)));
        assert(st0.1[i] == (i != d1 && i != d3));
        assert(st0.0[i] == (st1.0[i] || (gen_bit(irs[0], i) && st0.1[i])));
    }
    assert forall|i: int|
        0 <= i < n implies (block_out(inb, irs, w)[i] == (i == d2 || i == d3)) by {
        assert(!inb[i]);
        assert(st0.0[i] == (i == d2 || i == d3));
    }
}

} // verus!
