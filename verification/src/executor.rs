//! Symbolic abstract interpretation: each basic block is interpreted
//! against a symbolic operand stack that starts empty at the block
//! boundary, building an expression tree for every value produced
//! and recording operand and result trees on each instruction.

use vstd::prelude::*;
use crate::expression::{
    BigVal, OpTree, OpTreeV, be_val, bytes_clone, tree_clone, trees_clone, tree_view, tree_wf,
    trees_view,
};
use crate::instruction::{Instruction, InstrV, instr_view, instrs_view, instr_wf};
use crate::op_codes::{is_push_spec, is_dup_spec, is_swap_spec, is_terminator_spec, stack_in_spec,
    stack_out_spec, JUMPDEST};
use crate::op_codes;

verus! {

/// The effect of one instruction on the symbolic state.
pub ghost struct StepV {
    pub stack: Seq<OpTreeV>,
    pub inputs: Seq<OpTreeV>,
    pub outputs: Seq<OpTreeV>,
    pub tree: Option<OpTreeV>,
    pub underflow: bool,
}

/// The stack padded at the bottom with zero-constant placeholders up
/// to depth `need`, for graceful recovery from stack underflow.
pub open spec fn padded(stack: Seq<OpTreeV>, need: int) -> Seq<OpTreeV> {
    if stack.len() >= need {
        stack
    } else {
        Seq::new((need - stack.len()) as nat, |i: int| OpTreeV::Constant(0)) + stack
    }
}

/// The big-endian value of an instruction's immediate data; an
/// absent or empty immediate denotes zero.
pub open spec fn imm_val(imm: Option<Seq<u8>>) -> nat {
    match imm {
        Some(s) => be_val(s),
        None => 0,
    }
}

/// One step of the abstract interpretation.
///
/// Pushes produce a constant from their immediate.  Dup and swap
/// rearrange which trees occupy which slots without wrapping them in
/// a new node.  Every other opcode pops its operands (top first),
/// wraps them in an operation node that is recorded at the
/// instruction's position, and pushes the node back when the opcode
/// produces a result.
pub open spec fn step_spec(op: u8, imm: Option<Seq<u8>>, stack: Seq<OpTreeV>) -> StepV {
    if is_push_spec(op) {
        let t = OpTreeV::Constant(imm_val(imm));
        StepV {
            stack: stack.push(t),
            inputs: Seq::empty(),
            outputs: seq![t],
            tree: Some(t),
            underflow: false,
        }
    } else if is_dup_spec(op) {
        let n = op - 0x7f;
        let st = padded(stack, n as int);
        StepV {
            stack: st.push(st[st.len() - n]),
            inputs: Seq::empty(),
            outputs: Seq::empty(),
            tree: None,
            underflow: stack.len() < n,
        }
    } else if is_swap_spec(op) {
        let n = op - 0x8f;
        let st = padded(stack, n + 1);
        let top = st[st.len() - 1];
        let other = st[st.len() - 1 - n];
        StepV {
            stack: st.update(st.len() - 1, other).update(st.len() - 1 - n, top),
            inputs: Seq::empty(),
            outputs: Seq::empty(),
            tree: None,
            underflow: stack.len() < n + 1,
        }
    } else {
        let n = stack_in_spec(op) as int;
        let m = stack_out_spec(op) as int;
        let st = padded(stack, n);
        let inputs = Seq::new(n as nat, |i: int| st[st.len() - 1 - i]);
        let rest = st.take(st.len() - n);
        let t = OpTreeV::Operation(op, inputs);
        StepV {
            stack: if m >= 1 {
                rest.push(t)
            } else {
                rest
            },
            inputs: inputs,
            outputs: if m >= 1 {
                seq![t]
            } else {
                Seq::empty()
            },
            tree: Some(t),
            underflow: stack.len() < n,
        }
    }
}

/// The instruction with the step's operands, results and underflow
/// diagnostic recorded on it.
pub open spec fn step_instr(ins: InstrV, s: StepV) -> InstrV {
    InstrV { inputs: s.inputs, outputs: s.outputs, stack_underflow: s.underflow, ..ins }
}

/// Whether the instruction at index `k` starts a basic block: the
/// program start, a jump destination, or the fallthrough point after
/// a terminator.
pub open spec fn is_block_start(instrs: Seq<InstrV>, k: int) -> bool {
    k == 0 || instrs[k].op_code == JUMPDEST || is_terminator_spec(instrs[k - 1].op_code)
}

/// The symbolic state after interpreting the first `k` instructions;
/// the stack is re-initialized at each block boundary.
pub ghost struct ExecV {
    pub instrs: Seq<InstrV>,
    pub trees: Seq<(int, OpTreeV)>,
    pub stack: Seq<OpTreeV>,
}

pub open spec fn exec_upto(instrs: Seq<InstrV>, k: int) -> ExecV
    decreases k,
{
    if k <= 0 {
        ExecV { instrs: Seq::empty(), trees: Seq::empty(), stack: Seq::empty() }
    } else {
        let prev = exec_upto(instrs, k - 1);
        let ins = instrs[k - 1];
        let stack0 = if is_block_start(instrs, k - 1) {
            Seq::empty()
        } else {
            prev.stack
        };
        let st = step_spec(ins.op_code, ins.immediate, stack0);
        ExecV {
            instrs: prev.instrs.push(step_instr(ins, st)),
            trees: match st.tree {
                Some(t) => prev.trees.push((ins.position, t)),
                None => prev.trees,
            },
            stack: st.stack,
        }
    }
}

/// The symbolic execution of a whole instruction sequence.
pub open spec fn exec_spec(instrs: Seq<InstrV>) -> ExecV {
    exec_upto(instrs, instrs.len() as int)
}

/// Symbolic execution touches only operands, results and the
/// underflow diagnostic: position, opcode, immediate data and the
/// truncation flag of every instruction are kept.
pub proof fn lemma_exec_preserves_frame(instrs: Seq<InstrV>, k: int)
    requires
        0 <= k <= instrs.len(),
    ensures
        exec_upto(instrs, k).instrs.len() == k,
        forall|j: int|
            0 <= j < k ==> (#[trigger] exec_upto(instrs, k).instrs[j]).position
                == instrs[j].position && exec_upto(instrs, k).instrs[j].op_code
                == instrs[j].op_code && exec_upto(instrs, k).instrs[j].immediate
                == instrs[j].immediate && exec_upto(instrs, k).instrs[j].truncated
                == instrs[j].truncated,
    decreases k,
{
    if k > 0 {
        lemma_exec_preserves_frame(instrs, k - 1);
    }
}

/// View of the recorded position-to-tree entries.
pub open spec fn tree_entries_view(s: Seq<(usize, OpTree)>) -> Seq<(int, OpTreeV)> {
    Seq::new(
        s.len(),
        |i: int|
            if 0 <= i < s.len() {
                (s[i].0 as int, tree_view(s[i].1))
            } else {
                (0int, OpTreeV::Constant(0))
            },
    )
}

/// The synthesized placeholder operand.
fn zero_tree() -> (r: OpTree)
    ensures
        tree_view(r) == OpTreeV::Constant(0),
        tree_wf(r),
{
    let bytes: Vec<u8> = Vec::new();
    proof {
        assert(be_val(bytes@) == 0);
    }
    OpTree::Constant(BigVal { bytes })
}

/// Pads the stack at the bottom with zero-constant placeholders up
/// to depth `need`.
fn pad_stack(stack: &mut Vec<OpTree>, need: usize)
    requires
        forall|k: int| 0 <= k < old(stack)@.len() ==> tree_wf(#[trigger] old(stack)@[k]),
    ensures
        trees_view(final(stack)@) == padded(trees_view(old(stack)@), need as int),
        final(stack)@.len() == if old(stack)@.len() >= need {
            old(stack)@.len() as int
        } else {
            need as int
        },
        forall|k: int| 0 <= k < final(stack)@.len() ==> tree_wf(#[trigger] final(stack)@[k]),
{
    let ghost s0 = trees_view(old(stack)@);
    proof {
        assert(trees_view(stack@) =~= padded(s0, stack@.len() as int));
    }
    while stack.len() < need
        invariant
            trees_view(stack@) =~= padded(s0, stack@.len() as int),
            stack@.len() >= s0.len(),
            stack@.len() <= need || stack@.len() == s0.len(),
            forall|k: int| 0 <= k < stack@.len() ==> tree_wf(#[trigger] stack@[k]),
        decreases need - stack@.len(),
    {
        let z = zero_tree();
        let ghost before = stack@;
        stack.insert(0, z);
        proof {
            assert(stack@ =~= seq![z] + before);
            assert forall|q: int| 0 <= q < stack@.len() implies trees_view(stack@)[q] == padded(
                s0,
                stack@.len() as int,
            )[q] by {
                if q == 0 {
                    assert(stack@[0] == z);
                } else {
                    assert(stack@[q] == before[q - 1]);
                    assert(trees_view(before)[q - 1] == padded(s0, before.len() as int)[q - 1]);
                }
            }
            assert(trees_view(stack@) =~= padded(s0, stack@.len() as int));
        }
    }
    proof {
        assert(trees_view(stack@) =~= padded(s0, need as int));
    }
}


/// One instruction's step on exec values.
pub open spec fn step_of(ins: InstrV, stack: Seq<OpTreeV>) -> StepV {
    step_spec(ins.op_code, ins.immediate, stack)
}

/// The concrete result of one interpretation step.
struct StepOut {
    stack: Vec<OpTree>,
    inputs: Vec<OpTree>,
    outputs: Vec<OpTree>,
    underflow: bool,
    entry: Option<(usize, OpTree)>,
}

/// Runs one instruction against the symbolic stack.
#[verifier::rlimit(100)]
fn step_exec(ins: &Instruction, stack: Vec<OpTree>) -> (r: StepOut)
    requires
        forall|k: int| 0 <= k < stack@.len() ==> tree_wf(#[trigger] stack@[k]),
    ensures
        trees_view(r.stack@) == step_of(instr_view(*ins), trees_view(stack@)).stack,
        trees_view(r.inputs@) == step_of(instr_view(*ins), trees_view(stack@)).inputs,
        trees_view(r.outputs@) == step_of(instr_view(*ins), trees_view(stack@)).outputs,
        r.underflow == step_of(instr_view(*ins), trees_view(stack@)).underflow,
        match r.entry {
            Some(e) => step_of(instr_view(*ins), trees_view(stack@)).tree == Some(tree_view(e.1))
                && e.0 == ins.position,
            None => step_of(instr_view(*ins), trees_view(stack@)).tree is None,
        },
        forall|k: int| 0 <= k < r.stack@.len() ==> tree_wf(#[trigger] r.stack@[k]),
        forall|k: int| 0 <= k < r.inputs@.len() ==> tree_wf(#[trigger] r.inputs@[k]),
        forall|k: int| 0 <= k < r.outputs@.len() ==> tree_wf(#[trigger] r.outputs@[k]),
        match r.entry {
            Some(e) => tree_wf(e.1),
            None => true,
        },
{
    let mut stack = stack;
    let ghost stack0 = trees_view(stack@);
    let ghost st = step_of(instr_view(*ins), stack0);
    let op = ins.op_code;
    let mut new_inputs: Vec<OpTree> = Vec::new();
    let mut new_outputs: Vec<OpTree> = Vec::new();
    let mut underflow = false;
    let mut entry: Option<(usize, OpTree)> = None;
    if op_codes::is_push(op) {
        let bv = match &ins.immediate_data {
            Some(b) => BigVal::from_be(b.as_slice()),
            None => BigVal { bytes: Vec::new() },
        };
        proof {
            assert(bv.val() == imm_val(instr_view(*ins).immediate));
        }
        let t = OpTree::Constant(bv);
        entry = Some((ins.position, tree_clone(&t)));
        new_outputs.push(tree_clone(&t));
        stack.push(t);
        proof {
            assert(trees_view(stack@) =~= st.stack);
            assert(trees_view(new_outputs@) =~= st.outputs);
            assert(trees_view(new_inputs@) =~= st.inputs);
        }
    } else if op_codes::is_dup(op) {
        let depth: usize = (op - 0x7f) as usize;
        underflow = stack.len() < depth;
        pad_stack(&mut stack, depth);
        let len = stack.len();
        let v = tree_clone(&stack[len - depth]);
        stack.push(v);
        proof {
            assert(trees_view(stack@) =~= st.stack);
            assert(trees_view(new_inputs@) =~= st.inputs);
            assert(trees_view(new_outputs@) =~= st.outputs);
            assert(underflow == st.underflow);
        }
    } else if op_codes::is_swap(op) {
        let nsw: usize = (op - 0x8f) as usize;
        underflow = stack.len() < nsw + 1;
        pad_stack(&mut stack, nsw + 1);
        let len = stack.len();
        let top = stack.remove(len - 1);
        let other = stack.remove(len - 1 - nsw);
        stack.insert(len - 1 - nsw, top);
        stack.push(other);
        proof {
            assert(trees_view(stack@) =~= st.stack);
            assert(trees_view(new_inputs@) =~= st.inputs);
            assert(trees_view(new_outputs@) =~= st.outputs);
            assert(underflow == st.underflow);
        }
    } else {
        let n_in = op_codes::stack_in(op) as usize;
        let m_out = op_codes::stack_out(op) as usize;
        underflow = stack.len() < n_in;
        pad_stack(&mut stack, n_in);
        let ghost padded_v = padded(stack0, n_in as int);
        let ghost lp = padded_v.len() as int;
        let mut popped: Vec<OpTree> = Vec::new();
        let mut j: usize = 0;
        while j < n_in
            invariant
                0 <= j <= n_in,
                lp == padded_v.len(),
                lp >= n_in,
                stack@.len() == lp - j,
                trees_view(stack@) =~= padded_v.take(lp - j),
                popped@.len() == j,
                forall|q: int|
                    0 <= q < j ==> tree_view(#[trigger] popped@[q]) == padded_v[lp - 1 - q],
                forall|k: int| 0 <= k < stack@.len() ==> tree_wf(#[trigger] stack@[k]),
                forall|k: int| 0 <= k < popped@.len() ==> tree_wf(#[trigger] popped@[k]),
            decreases n_in - j,
        {
            let ghost before = stack@;
            let t = match stack.pop() {
                Some(t) => t,
                None => zero_tree(),
            };
            proof {
                assert(before.len() > 0);
                assert(tree_view(t) == trees_view(before)[before.len() - 1]);
                assert(trees_view(before)[before.len() - 1] == padded_v.take(lp - j)[lp - j - 1]);
            }
            popped.push(t);
            j += 1;
            proof {
                assert(trees_view(stack@) =~= padded_v.take(lp - j));
            }
        }
        new_inputs = trees_clone(&popped);
        proof {
            assert(trees_view(popped@) =~= st.inputs);
        }
        let t = OpTree::operation(op, popped);
        entry = Some((ins.position, tree_clone(&t)));
        if m_out >= 1 {
            new_outputs.push(tree_clone(&t));
            stack.push(t);
        }
        proof {
            assert(trees_view(new_inputs@) =~= st.inputs);
            assert(trees_view(stack@) =~= st.stack);
            assert(trees_view(new_outputs@) =~= st.outputs);
        }
    }
    StepOut { stack, inputs: new_inputs, outputs: new_outputs, underflow, entry }
}

/// Interprets the whole instruction sequence, returning the updated
/// instructions and the recorded expression-tree entries in position
/// order.
#[verifier::rlimit(100)]
pub fn execute(instructions: Vec<Instruction>) -> (res: (Vec<Instruction>, Vec<(usize, OpTree)>))
    ensures
        instrs_view(res.0@) == exec_spec(instrs_view(instructions@)).instrs,
        tree_entries_view(res.1@) == exec_spec(instrs_view(instructions@)).trees,
        forall|k: int| 0 <= k < res.0@.len() ==> instr_wf(#[trigger] res.0@[k]),
        forall|k: int| 0 <= k < res.1@.len() ==> tree_wf((#[trigger] res.1@[k]).1),
{
    let ghost orig = instrs_view(instructions@);
    let n = instructions.len();
    let mut out: Vec<Instruction> = Vec::new();
    let mut trees: Vec<(usize, OpTree)> = Vec::new();
    let mut stack: Vec<OpTree> = Vec::new();
    let mut i: usize = 0;
    let mut prev_op: u8 = 0;
    while i < n
        invariant
            0 <= i <= n,
            n == instructions@.len(),
            orig == instrs_view(instructions@),
            orig.len() == n,
            instrs_view(out@) =~= exec_upto(orig, i as int).instrs,
            tree_entries_view(trees@) =~= exec_upto(orig, i as int).trees,
            trees_view(stack@) =~= exec_upto(orig, i as int).stack,
            i > 0 ==> prev_op == orig[i - 1].op_code,
            forall|k: int| 0 <= k < out@.len() ==> instr_wf(#[trigger] out@[k]),
            forall|k: int| 0 <= k < trees@.len() ==> tree_wf((#[trigger] trees@[k]).1),
            forall|k: int| 0 <= k < stack@.len() ==> tree_wf(#[trigger] stack@[k]),
        decreases n - i,
    {
        let ins = &instructions[i];
        let op = ins.op_code;
        proof {
            assert(instr_view(instructions@[i as int]) == orig[i as int]);
        }
        let start_here = i == 0 || op == JUMPDEST || op_codes::is_terminator(prev_op);
        if start_here {
            stack = Vec::new();
        }
        let ghost stack0 = if is_block_start(orig, i as int) {
            Seq::<OpTreeV>::empty()
        } else {
            exec_upto(orig, i as int).stack
        };
        proof {
            assert(trees_view(stack@) =~= stack0);
        }
        let ghost st = step_of(orig[i as int], stack0);
        let so = step_exec(ins, stack);
        stack = so.stack;
        match so.entry {
            Some(e) => {
                trees.push(e);
                proof {
                    assert(tree_entries_view(trees@) =~= exec_upto(orig, i + 1).trees);
                }
            },
            None => {
                proof {
                    assert(tree_entries_view(trees@) =~= exec_upto(orig, i + 1).trees);
                }
            },
        }
        let upd = Instruction {
            position: ins.position,
            op_code: op,
            immediate_data: match &ins.immediate_data {
                Some(b) => Some(bytes_clone(b)),
                None => None,
            },
            truncated: ins.truncated,
            stack_underflow: so.underflow,
            inputs: so.inputs,
            outputs: so.outputs,
        };
        proof {
            assert(instr_view(upd).inputs == st.inputs);
            assert(instr_view(upd).outputs == st.outputs);
            assert(instr_view(upd).immediate == orig[i as int].immediate);
            assert(instr_view(upd) == step_instr(orig[i as int], st));
        }
        out.push(upd);
        proof {
            assert(instrs_view(out@) =~= exec_upto(orig, i + 1).instrs);
            assert(trees_view(stack@) =~= exec_upto(orig, i + 1).stack);
        }
        prev_op = op;
        i += 1;
    }
    proof {
        assert(instrs_view(out@) =~= exec_spec(orig).instrs);
        assert(tree_entries_view(trees@) =~= exec_spec(orig).trees);
    }
    (out, trees)
}

} // verus!
