//! Basic blocks: an ordered sequence of instructions ended by one
//! control-transfer instruction.

use vstd::prelude::*;

use crate::ir::{BlockType, IR};

verus! {

/// A basic block. The instruction sequence is filled in by the front end as
/// it emits code; the terminator starts as a fall-through `Next` jump and is
/// finalised when the block's control transfer is known.
pub struct CodeBlock {
    /// The block's logical id in the shared block pool.
    pub id: usize,
    pub block_type: BlockType,
    pub irs: Vec<IR>,
    pub terminator: IR,
}

impl CodeBlock {
    pub fn new(id: usize, block_type: BlockType, irs: Vec<IR>, terminator: IR) -> (b: CodeBlock)
        ensures
            b.id == id,
            b.block_type == block_type,
            b.irs == irs,
            b.terminator == terminator,
    {
        CodeBlock { id, block_type, irs, terminator }
    }

    /// Append one instruction to the block's body.
    pub fn push_ir(&mut self, ir: IR)
        ensures
            final(self).irs@ == old(self).irs@.push(ir),
            final(self).id == old(self).id,
            final(self).block_type == old(self).block_type,
            final(self).terminator == old(self).terminator,
    {
        self.irs.push(ir);
    }

    /// Finalise the block's control transfer.
    pub fn set_terminator(&mut self, terminator: IR)
        ensures
            final(self).terminator == terminator,
            final(self).id == old(self).id,
            final(self).block_type == old(self).block_type,
            final(self).irs == old(self).irs,
    {
        self.terminator = terminator;
    }
}

} // verus!

verus! {

broadcast use vstd::std_specs::vec::group_vec_axioms;

/// The first list of declaration numbers recorded for `var`, if any.
pub open spec fn assoc_decls(s: Seq<(usize, Vec<usize>)>, var: usize) -> Option<Seq<usize>>
    decreases s.len(),
{
    if s.len() == 0 {
        None
    } else if s[0].0 == var {
        Some(s[0].1@)
    } else {
        assoc_decls(s.drop_first(), var)
    }
}

/// Graph-wide metadata computed once per function before analysis:
/// `assignment_count` fixes the bit-vector universe, and the variable
/// assignment map records, for each space, every declaration number that
/// assigns it.
pub struct CodeBlockGraphWeight {
    pub assignment_count: usize,
    pub variable_assignment_map: Vec<(usize, Vec<usize>)>,
}

impl CodeBlockGraphWeight {
    /// The declaration numbers recorded for `var` (empty when none are).
    pub open spec fn decls_of(self, var: usize) -> Seq<usize> {
        match assoc_decls(self.variable_assignment_map@, var) {
            Some(s) => s,
            None => Seq::empty(),
        }
    }

    /// Whether `var` has an entry in the map.
    pub open spec fn has_var(self, var: usize) -> bool {
        assoc_decls(self.variable_assignment_map@, var) is Some
    }

    /// Every recorded declaration number indexes into the bit vector.
    pub open spec fn map_wf(self) -> bool {
        forall|var: usize, j: int|
            0 <= j < self.decls_of(var).len() ==> (#[trigger] self.decls_of(var)[j])
                < self.assignment_count
    }

    /// An empty weight: no assignments recorded yet.
    pub fn empty() -> (w: Self)
        ensures
            w.assignment_count == 0,
            w.variable_assignment_map@ =~= Seq::<(usize, Vec<usize>)>::empty(),
            w.map_wf(),
    {
        let w = CodeBlockGraphWeight { assignment_count: 0, variable_assignment_map: Vec::new() };
        proof {
            assert forall|var: usize, j: int|
                0 <= j < w.decls_of(var).len() implies (#[trigger] w.decls_of(var)[j])
                < w.assignment_count by {
                assert(assoc_decls(w.variable_assignment_map@, var) is None);
            }
        }
        w
    }

    /// The recorded declaration numbers of `var`, as a borrowed list.
    pub fn lookup_decls(&self, var: usize) -> (r: Option<&Vec<usize>>)
        ensures
            match r {
                Some(v) => self.has_var(var) && v@ == self.decls_of(var),
                None => !self.has_var(var),
            },
    {
        let n = self.variable_assignment_map.len();
        let mut i: usize = 0;
        proof {
            assert(self.variable_assignment_map@.skip(0) =~= self.variable_assignment_map@);
        }
        while i < n
            invariant
                i <= n,
                n == self.variable_assignment_map@.len(),
                assoc_decls(self.variable_assignment_map@, var) == assoc_decls(
                    self.variable_assignment_map@.skip(i as int),
                    var,
                ),
            decreases n - i,
        {
            let entry = &self.variable_assignment_map[i];
            proof {
                assert(self.variable_assignment_map@.skip(i as int)[0]
                    == self.variable_assignment_map@[i as int]);
                assert(self.variable_assignment_map@.skip(i as int).drop_first()
                    =~= self.variable_assignment_map@.skip(i as int + 1));
            }
            if entry.0 == var {
                return Some(&entry.1);
            }
            i += 1;
        }
        proof {
            assert(self.variable_assignment_map@.skip(n as int) =~= Seq::<(
                usize,
                Vec<usize>,
            )>::empty());
        }
        None
    }
}

} // verus!
