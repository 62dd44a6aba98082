//! Decoded instructions: position, opcode identity, trailing
//! immediate data, diagnostic flags, and (after symbolic execution)
//! symbolic operands and results.

use vstd::prelude::*;
use crate::expression::{OpTree, OpTreeV, tree_wf, trees_view};

verus! {

/// One decoded instruction, keyed by its byte position.
///
/// `inputs` and `outputs` are left empty by the disassembler and
/// populated by the symbolic executor.  `truncated` records that the
/// declared immediate length ran past the end of the stream;
/// `stack_underflow` records that the symbolic stack was short when
/// the instruction ran and placeholders were synthesized.
pub struct Instruction {
    pub position: usize,
    pub op_code: u8,
    pub immediate_data: Option<Vec<u8>>,
    pub truncated: bool,
    pub stack_underflow: bool,
    pub inputs: Vec<OpTree>,
    pub outputs: Vec<OpTree>,
}

/// Mathematical model of an instruction.
pub ghost struct InstrV {
    pub position: int,
    pub op_code: u8,
    pub immediate: Option<Seq<u8>>,
    pub truncated: bool,
    pub stack_underflow: bool,
    pub inputs: Seq<OpTreeV>,
    pub outputs: Seq<OpTreeV>,
}

pub open spec fn instr_view(ins: Instruction) -> InstrV {
    InstrV {
        position: ins.position as int,
        op_code: ins.op_code,
        immediate: match ins.immediate_data {
            Some(v) => Some(v@),
            None => None,
        },
        truncated: ins.truncated,
        stack_underflow: ins.stack_underflow,
        inputs: trees_view(ins.inputs@),
        outputs: trees_view(ins.outputs@),
    }
}

pub open spec fn instrs_view(s: Seq<Instruction>) -> Seq<InstrV> {
    Seq::new(
        s.len(),
        |i: int|
            if 0 <= i < s.len() {
                instr_view(s[i])
            } else {
                instr_view(s[0])
            },
    )
}

/// Validity: every operand and result tree is well formed.
pub open spec fn instr_wf(ins: Instruction) -> bool {
    &&& forall|i: int| 0 <= i < ins.inputs@.len() ==> tree_wf(#[trigger] ins.inputs@[i])
    &&& forall|i: int| 0 <= i < ins.outputs@.len() ==> tree_wf(#[trigger] ins.outputs@[i])
}

} // verus!
