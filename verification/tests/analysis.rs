use irflow::bits::{bits_contains, bits_equal, bits_len, bits_new, bits_set, bits_toggle_all};
use irflow::block::CodeBlockGraphWeight;
use irflow::cfg::{cfg_add_edge, cfg_add_node, cfg_count, cfg_new, cfg_preds};
use irflow::graph::{BlockLattice, BlockTransfer, CodeBlockAnalysisNode, DataFlowGraph};
use irflow::ir::{
    AddressMarker, Function, IRInformation, JumpOperation, Operation, Program, IR,
};
use irflow::lattice::{ProductLattice, SemiLattice};
use irflow::ops::UnaryOp;
use irflow::reach::{transfer_reach, ReachLattice};

fn assign(dest: usize, decl: usize) -> IR {
    IR::Assignment(
        dest,
        Operation::Unary(UnaryOp::Unit, dest),
        IRInformation { declaration_number: Some(decl) },
    )
}

fn out_bits(r: &ReachLattice, n: usize) -> Vec<bool> {
    (0..n).map(|i| bits_contains(&r.value, i)).collect()
}

#[test]
fn bit_set_wrappers_report_what_was_stored() {
    let mut s = bits_new(4);
    assert_eq!(bits_len(&s), 4);
    assert!(!bits_contains(&s, 0));
    bits_set(&mut s, 2, true);
    assert!(bits_contains(&s, 2));
    assert!(!bits_contains(&s, 1));
    assert!(!bits_contains(&s, 7), "out of range is clear");
    let t = bits_new(4);
    assert!(!bits_equal(&s, &t));
    bits_set(&mut s, 2, false);
    assert!(bits_equal(&s, &t));
    bits_toggle_all(&mut s);
    assert!(bits_contains(&s, 0) && bits_contains(&s, 3));
}

#[test]
fn cfg_wrappers_report_the_added_edges() {
    let mut g = cfg_new();
    let a = cfg_add_node(&mut g);
    let b = cfg_add_node(&mut g);
    let c = cfg_add_node(&mut g);
    assert_eq!((a, b, c), (0, 1, 2));
    assert_eq!(cfg_count(&g), 3);
    cfg_add_edge(&mut g, 0, 2);
    cfg_add_edge(&mut g, 1, 2);
    let mut preds = cfg_preds(&g, 2);
    preds.sort();
    assert_eq!(preds, vec![0, 1]);
    assert!(cfg_preds(&g, 0).is_empty());
}

#[test]
fn gen_and_kill_masks_per_instruction() {
    let w = CodeBlockGraphWeight {
        assignment_count: 4,
        variable_assignment_map: vec![(7, vec![0, 2]), (8, vec![1])],
    };
    let ir = assign(7, 2);
    let gen = ReachLattice::gen_var(&ir, &w);
    assert_eq!(out_bits(&gen, 4), vec![false, false, true, false]);
    // Kill: the destination's other declarations, never its own.
    let kill = ReachLattice::kill_var(&ir, &w);
    assert_eq!(out_bits(&kill, 4), vec![true, false, false, false]);
    let mask = ReachLattice::kill_mask_var(&ir, &w);
    assert_eq!(out_bits(&mask, 4), vec![false, true, true, true]);
    // A jump neither generates nor kills.
    let jmp = IR::Jump(JumpOperation::End, IRInformation::default());
    assert_eq!(out_bits(&ReachLattice::gen_var(&jmp, &w), 4), vec![false; 4]);
    assert_eq!(out_bits(&ReachLattice::kill_var(&jmp, &w), 4), vec![false; 4]);
    assert_eq!(out_bits(&ReachLattice::kill_mask_var(&jmp, &w), 4), vec![true; 4]);
}

#[test]
fn straight_line_block_without_redefinition() {
    // d1 < d2 < d3 assign three distinct spaces; with in = {} the out fact
    // is exactly {d1, d2, d3}.
    let w = CodeBlockGraphWeight {
        assignment_count: 3,
        variable_assignment_map: vec![(10, vec![0]), (11, vec![1]), (12, vec![2])],
    };
    let irs = vec![assign(10, 0), assign(11, 1), assign(12, 2)];
    let inb = ReachLattice::new(3);
    let out = transfer_reach(&inb, &irs, &w);
    assert_eq!(out_bits(&out, 3), vec![true, true, true]);
}

#[test]
fn straight_line_block_with_redefinition() {
    // d1 and d3 assign the same space, d2 a different one: d1 is killed.
    let w = CodeBlockGraphWeight {
        assignment_count: 3,
        variable_assignment_map: vec![(10, vec![0, 2]), (11, vec![1])],
    };
    let irs = vec![assign(10, 0), assign(11, 1), assign(10, 2)];
    let inb = ReachLattice::new(3);
    let out = transfer_reach(&inb, &irs, &w);
    assert_eq!(out_bits(&out, 3), vec![false, true, true]);
}

#[test]
fn transfer_keeps_unkilled_incoming_facts() {
    let w = CodeBlockGraphWeight {
        assignment_count: 2,
        variable_assignment_map: vec![(10, vec![0]), (11, vec![1])],
    };
    let irs = vec![assign(10, 0)];
    let mut inb = ReachLattice::new(2);
    bits_set(&mut inb.value, 1, true);
    let out = transfer_reach(&inb, &irs, &w);
    // Declaration 1 flows through; declaration 0 is generated.
    assert_eq!(out_bits(&out, 2), vec![true, true]);
}

#[test]
fn reach_lattice_join_reports_alteration() {
    let mut a = ReachLattice::new(3);
    let mut b = ReachLattice::new(3);
    bits_set(&mut b.value, 1, true);
    assert!(a.meet_with(&b));
    assert!(!a.meet_with(&b), "joining the same fact again changes nothing");
    let m = a.meet(&b);
    assert_eq!(out_bits(&m, 3), vec![false, true, false]);
    assert_eq!(a.get(1), Some(true));
    assert_eq!(a.get(0), Some(false));
    assert_eq!(a.get(3), None);
}

fn two_block_function() -> (Program, Function) {
    // entry: a := ...   (declaration 0), falls through
    // exit:  a := ...   (declaration 1), returns a
    let mut program = Program::new();
    let (fid, _) = program.lookup_or_insert_function(String::from("main"));
    let mut f = Function::new(String::from("main"), fid);
    let (a, _) = f.declare_local(&mut program, String::from("a"), None);
    let (_b0, h0) = f.lookup_or_insert_block(&mut program, String::from("entry"));
    let (_b1, h1) = f.lookup_or_insert_block(&mut program, String::from("exit"));
    program.block_pool.get_mut(h0).push_ir(IR::Assignment(
        a,
        Operation::Unary(UnaryOp::Unit, a),
        IRInformation::default(),
    ));
    program.block_pool.get_mut(h1).push_ir(IR::Assignment(
        a,
        Operation::Unary(UnaryOp::Unit, a),
        IRInformation::default(),
    ));
    program.block_pool.get_mut(h1).set_terminator(IR::Jump(
        JumpOperation::Ret(a),
        IRInformation::default(),
    ));
    (program, f)
}

#[test]
fn end_to_end_two_block_function() {
    let (program, mut f) = two_block_function();
    assert_eq!(f.build_graph(&program), Ok(()));
    assert_eq!(f.graph.nodes.len(), 2);
    assert_eq!(f.graph.weight.assignment_count, 2);
    assert!(f.graph.solve_forward(), "the solver must converge");
    // entry.out = {0}; exit.in = {0}; exit.out = {1}: declaration 0 is
    // killed because the exit block redefines `a`.
    assert_eq!(out_bits(&f.graph.nodes[0].reach_out, 2), vec![true, false]);
    assert_eq!(out_bits(&f.graph.nodes[1].reach_in, 2), vec![true, false]);
    assert_eq!(out_bits(&f.graph.nodes[1].reach_out, 2), vec![false, true]);
}

#[test]
fn solver_is_idempotent_on_a_converged_graph() {
    let (program, mut f) = two_block_function();
    assert_eq!(f.build_graph(&program), Ok(()));
    assert!(f.graph.solve_forward());
    let snapshot: Vec<(Vec<bool>, Vec<bool>)> = f
        .graph
        .nodes
        .iter()
        .map(|n| (out_bits(&n.reach_in, 2), (out_bits(&n.reach_out, 2))))
        .collect();
    assert!(f.graph.solve_forward(), "a second run converges at once");
    let again: Vec<(Vec<bool>, Vec<bool>)> = f
        .graph
        .nodes
        .iter()
        .map(|n| (out_bits(&n.reach_in, 2), (out_bits(&n.reach_out, 2))))
        .collect();
    assert_eq!(snapshot, again, "no fact changes on a converged graph");
}

#[test]
fn solver_terminates_on_a_cyclic_graph() {
    // entry -> loop; loop branches back to itself or on to end.
    let mut program = Program::new();
    let (fid, _) = program.lookup_or_insert_function(String::from("looper"));
    let mut f = Function::new(String::from("looper"), fid);
    let (x, _) = f.declare_local(&mut program, String::from("x"), None);
    let (c, _) = f.declare_local(&mut program, String::from("c"), None);
    let (_e, he) = f.lookup_or_insert_block(&mut program, String::from("entry"));
    let (bl, hl) = f.lookup_or_insert_block(&mut program, String::from("loop"));
    let (be, hx) = f.lookup_or_insert_block(&mut program, String::from("end"));
    program.block_pool.get_mut(he).push_ir(IR::Assignment(
        x,
        Operation::Unary(UnaryOp::Unit, x),
        IRInformation::default(),
    ));
    program.block_pool.get_mut(hl).push_ir(IR::Assignment(
        x,
        Operation::Unary(UnaryOp::Unit, x),
        IRInformation::default(),
    ));
    program.block_pool.get_mut(hl).set_terminator(IR::Jump(
        JumpOperation::Branch(c, AddressMarker::new(bl), AddressMarker::new(be)),
        IRInformation::default(),
    ));
    program.block_pool.get_mut(hx).set_terminator(IR::Jump(
        JumpOperation::End,
        IRInformation::default(),
    ));
    assert_eq!(f.build_graph(&program), Ok(()));
    assert!(f.graph.solve_forward(), "finite lattice: the loop converges");
    // Both definitions of x reach the loop head; only the loop's own
    // definition leaves it.
    assert_eq!(out_bits(&f.graph.nodes[1].reach_in, 2), vec![true, true]);
    assert_eq!(out_bits(&f.graph.nodes[1].reach_out, 2), vec![false, true]);
}

#[test]
fn solver_accepts_an_empty_function() {
    let mut program = Program::new();
    let mut f = Function::new(String::from("empty"), 1);
    assert_eq!(f.build_graph(&program), Ok(()));
    assert!(f.graph.solve_forward());
    assert!(f.graph.nodes.is_empty());
}

#[test]
fn transfer_through_the_capability_traits() {
    let w = CodeBlockGraphWeight {
        assignment_count: 2,
        variable_assignment_map: vec![(5, vec![0]), (6, vec![1])],
    };
    let g = DataFlowGraph::new(w);
    let node = CodeBlockAnalysisNode {
        block_id: 1,
        irs: vec![assign(5, 0)],
        reach_in: ReachLattice::new(2),
        reach_out: ReachLattice::new(2),
    };
    let top = <CodeBlockAnalysisNode as BlockTransfer<ReachLattice>>::top(&g);
    assert_eq!(out_bits(&top, 2), vec![false, false]);
    let bottom = <CodeBlockAnalysisNode as BlockTransfer<ReachLattice>>::bottom(&g);
    assert_eq!(out_bits(&bottom, 2), vec![true, true]);
    let entry = <CodeBlockAnalysisNode as BlockTransfer<ReachLattice>>::entry_out(&g);
    assert_eq!(out_bits(&entry, 2), vec![false, false]);
    let out = node.transfer_forward(&top, &g, 0);
    assert_eq!(out_bits(&out, 2), vec![true, false]);

    let mut node = node;
    assert_eq!(out_bits(node.get_in(), 2), vec![false, false]);
    node.set_out(out);
    assert_eq!(out_bits(node.get_out(), 2), vec![true, false]);
    let mut replacement = ReachLattice::new(2);
    bits_set(&mut replacement.value, 1, true);
    node.set_in(replacement);
    assert_eq!(out_bits(node.get_in(), 2), vec![false, true]);
}
