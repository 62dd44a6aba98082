//! Control-flow graph reconstruction: partitions the instruction
//! stream into basic blocks, resolves jump edges statically where the
//! symbolic executor found a constant target, flags dynamic jumps,
//! computes the entry/exit relations and reachability, and sums a
//! static gas estimate per block.

use vstd::prelude::*;
use crate::expression::OpTreeV;
use crate::instruction::{Instruction, InstrV, instr_view, instrs_view};
use crate::op_codes::{is_terminator_spec, is_jump_spec, base_gas_spec, JUMPDEST, JUMPI};
use crate::op_codes;
use crate::executor::is_block_start;

verus! {

/// A basic block: a contiguous byte range of instructions, its edge
/// relations (as sets of block start offsets), its reachability and
/// dynamic-jump flags, and a static gas estimate.
pub struct Block {
    pub start: usize,
    pub end: usize,
    pub reachable: bool,
    pub dynamic_jump: bool,
    pub gas_price: u64,
    pub entries: Vec<usize>,
    pub exits: Vec<usize>,
}

/// Mathematical model of a block.
pub ghost struct BlockV {
    pub start: int,
    pub end: int,
    pub reachable: bool,
    pub dynamic_jump: bool,
    pub gas_price: int,
    pub entries: Seq<int>,
    pub exits: Seq<int>,
}

pub open spec fn usizes_view(s: Seq<usize>) -> Seq<int> {
    Seq::new(s.len(), |i: int| s[i] as int)
}

pub open spec fn block_view(b: Block) -> BlockV {
    BlockV {
        start: b.start as int,
        end: b.end as int,
        reachable: b.reachable,
        dynamic_jump: b.dynamic_jump,
        gas_price: b.gas_price as int,
        entries: usizes_view(b.entries@),
        exits: usizes_view(b.exits@),
    }
}

pub open spec fn blocks_view(s: Seq<Block>) -> Seq<BlockV> {
    Seq::new(
        s.len(),
        |i: int|
            if 0 <= i < s.len() {
                block_view(s[i])
            } else {
                block_view(s[0])
            },
    )
}

/// The instruction indices that start basic blocks, in increasing
/// order: the program start, jump destinations, and fallthrough
/// points after terminators.
pub open spec fn boundaries_from(instrs: Seq<InstrV>, k: int) -> Seq<int>
    decreases instrs.len() - k,
{
    if k < 0 || k >= instrs.len() {
        Seq::empty()
    } else if is_block_start(instrs, k) {
        seq![k] + boundaries_from(instrs, k + 1)
    } else {
        boundaries_from(instrs, k + 1)
    }
}

pub open spec fn boundaries(instrs: Seq<InstrV>) -> Seq<int> {
    boundaries_from(instrs, 0)
}

/// The instruction-index range of block `i`: from its boundary to
/// the next boundary (or the end of the instruction sequence).
pub open spec fn block_from(instrs: Seq<InstrV>, i: int) -> int {
    boundaries(instrs)[i]
}

pub open spec fn block_to(instrs: Seq<InstrV>, i: int) -> int {
    if i + 1 < boundaries(instrs).len() {
        boundaries(instrs)[i + 1]
    } else {
        instrs.len() as int
    }
}

/// The byte position where block `i` starts.
pub open spec fn block_start_pos(instrs: Seq<InstrV>, i: int) -> int {
    instrs[block_from(instrs, i)].position
}

/// The (exclusive) byte position where block `i` ends.
pub open spec fn block_end_pos(instrs: Seq<InstrV>, code_len: int, i: int) -> int {
    if i + 1 < boundaries(instrs).len() {
        block_start_pos(instrs, i + 1)
    } else {
        code_len
    }
}

/// The last instruction of block `i`.
pub open spec fn block_last(instrs: Seq<InstrV>, i: int) -> InstrV {
    instrs[block_to(instrs, i) - 1]
}

/// The jump target recorded by the symbolic executor for a jump
/// instruction: the value of its first (top-of-stack) operand when
/// that operand is a constant.
pub open spec fn jump_target(li: InstrV) -> Option<nat> {
    if li.inputs.len() >= 1 && li.inputs[0] is Constant {
        Some(li.inputs[0]->Constant_0)
    } else {
        None
    }
}

/// Whether some block starts at byte position `v` with a jump
/// destination instruction.
pub open spec fn has_jumpdest_block(instrs: Seq<InstrV>, v: int) -> bool {
    exists|j: int|
        0 <= j < boundaries(instrs).len() && block_start_pos(instrs, j) == v && instrs[block_from(
            instrs,
            j,
        )].op_code == JUMPDEST
}

/// Whether block `i` has a statically resolved taken edge.
pub open spec fn taken_resolved(instrs: Seq<InstrV>, i: int) -> bool {
    &&& is_jump_spec(block_last(instrs, i).op_code)
    &&& jump_target(block_last(instrs, i)) is Some
    &&& has_jumpdest_block(instrs, jump_target(block_last(instrs, i))->Some_0 as int)
}

/// A jump whose target did not resolve to a constant jump
/// destination is flagged dynamic: its successor set may be
/// incomplete.
pub open spec fn dyn_of(instrs: Seq<InstrV>, i: int) -> bool {
    is_jump_spec(block_last(instrs, i).op_code) && !taken_resolved(instrs, i)
}

/// The fallthrough exit: present when the block's last instruction
/// is not a terminator, or is a conditional jump (whose untaken
/// branch always falls through), and a next block exists.
pub open spec fn fall_exit(instrs: Seq<InstrV>, i: int) -> Seq<int> {
    if i + 1 < boundaries(instrs).len() && (!is_terminator_spec(block_last(instrs, i).op_code)
        || block_last(instrs, i).op_code == JUMPI) {
        seq![block_start_pos(instrs, i + 1)]
    } else {
        Seq::empty()
    }
}

/// The taken exit: the resolved constant target of a jump, when it
/// names a block starting with a jump destination.
pub open spec fn taken_exit(instrs: Seq<InstrV>, i: int) -> Seq<int> {
    if taken_resolved(instrs, i) {
        seq![jump_target(block_last(instrs, i))->Some_0 as int]
    } else {
        Seq::empty()
    }
}

/// The exits of block `i`: fallthrough first, then the taken edge,
/// without duplicating a taken edge equal to the fallthrough.
pub open spec fn exits_of(instrs: Seq<InstrV>, i: int) -> Seq<int> {
    let f = fall_exit(instrs, i);
    let t = taken_exit(instrs, i);
    f + (if t.len() > 0 && f.contains(t[0]) {
        Seq::empty()
    } else {
        t
    })
}

/// The entries of block `i`: the starts of the blocks whose exits
/// contain this block's start, in block order.
pub open spec fn entries_of_from(instrs: Seq<InstrV>, i: int, j: int) -> Seq<int>
    decreases boundaries(instrs).len() - j,
{
    if j < 0 || j >= boundaries(instrs).len() {
        Seq::empty()
    } else {
        (if exits_of(instrs, j).contains(block_start_pos(instrs, i)) {
            seq![block_start_pos(instrs, j)]
        } else {
            Seq::empty()
        }) + entries_of_from(instrs, i, j + 1)
    }
}

pub open spec fn entries_of(instrs: Seq<InstrV>, i: int) -> Seq<int> {
    entries_of_from(instrs, i, 0)
}

/// The static gas estimate: the sum of the base gas of the
/// instructions in the index range, each counted at its base cost.
pub open spec fn gas_sum(instrs: Seq<InstrV>, from: int, to: int) -> nat
    decreases to - from,
{
    if from >= to {
        0
    } else {
        (gas_sum(instrs, from, to - 1) + base_gas_spec(instrs[to - 1].op_code)) as nat
    }
}

/// The block's gas estimate, saturating at the machine bound.
pub open spec fn gas_of(instrs: Seq<InstrV>, i: int) -> int {
    let s = gas_sum(instrs, block_from(instrs, i), block_to(instrs, i));
    if s <= u64::MAX {
        s as int
    } else {
        u64::MAX as int
    }
}

/// One round of reachability propagation over the resolved exits.
pub open spec fn reach_step(instrs: Seq<InstrV>, m: Seq<bool>) -> Seq<bool> {
    Seq::new(
        m.len(),
        |i: int|
            m[i] || exists|j: int|
                0 <= j < m.len() && m[j] && exits_of(instrs, j).contains(
                    block_start_pos(instrs, i),
                ),
    )
}

/// `k` rounds of propagation from the block containing position 0.
pub open spec fn reach_iter(instrs: Seq<InstrV>, k: nat) -> Seq<bool>
    decreases k,
{
    if k == 0 {
        Seq::new(boundaries(instrs).len(), |i: int| i == 0)
    } else {
        reach_step(instrs, reach_iter(instrs, (k - 1) as nat))
    }
}

/// The reachability of every block: as many rounds as there are
/// blocks, which saturates the propagation.
pub open spec fn reach_of(instrs: Seq<InstrV>) -> Seq<bool> {
    reach_iter(instrs, boundaries(instrs).len())
}

/// The fully determined block map of an instruction sequence.
pub open spec fn blocks_spec(instrs: Seq<InstrV>, code_len: int) -> Seq<BlockV> {
    Seq::new(
        boundaries(instrs).len(),
        |i: int|
            BlockV {
                start: block_start_pos(instrs, i),
                end: block_end_pos(instrs, code_len, i),
                reachable: reach_of(instrs)[i],
                dynamic_jump: dyn_of(instrs, i),
                gas_price: gas_of(instrs, i),
                entries: entries_of(instrs, i),
                exits: exits_of(instrs, i),
            },
    )
}

/// Every boundary is a block-start index inside the sequence; they
/// increase strictly; every block-start index at or after `k` is
/// listed; and from the beginning the first boundary is index 0.
pub proof fn lemma_boundaries_chain(instrs: Seq<InstrV>, k: int)
    requires
        0 <= k <= instrs.len(),
    ensures
        forall|j: int|
            0 <= j < boundaries_from(instrs, k).len() ==> k <= #[trigger] boundaries_from(
                instrs,
                k,
            )[j] < instrs.len() && is_block_start(instrs, boundaries_from(instrs, k)[j]),
        forall|j: int|
            0 <= j < boundaries_from(instrs, k).len() - 1 ==> #[trigger] boundaries_from(
                instrs,
                k,
            )[j] < boundaries_from(instrs, k)[j + 1],
        forall|m: int|
            k <= m < instrs.len() && is_block_start(instrs, m) ==> boundaries_from(
                instrs,
                k,
            ).contains(m),
        k == 0 && instrs.len() > 0 ==> boundaries_from(instrs, k).len() > 0 && boundaries_from(
            instrs,
            k,
        )[0] == 0,
    decreases instrs.len() - k,
{
    if k < instrs.len() {
        lemma_boundaries_chain(instrs, k + 1);
        let b = boundaries_from(instrs, k);
        let tail = boundaries_from(instrs, k + 1);
        if is_block_start(instrs, k) {
            assert(b == seq![k] + tail);
            assert(forall|j: int| 1 <= j < b.len() ==> b[j] == tail[j - 1]);
            assert forall|m: int|
                k <= m < instrs.len() && is_block_start(instrs, m) implies b.contains(m) by {
                if m == k {
                    assert(b[0] == m);
                } else {
                    assert(tail.contains(m));
                    let j = choose|j: int| 0 <= j < tail.len() && tail[j] == m;
                    assert(b[j + 1] == m);
                }
            }
        } else {
            assert(b == tail);
            assert(k != 0 || is_block_start(instrs, 0));
        }
    }
}

/// Linear membership test against the viewed contents.
fn contains_usize(v: &Vec<usize>, x: usize) -> (r: bool)
    ensures
        r == usizes_view(v@).contains(x as int),
{
    let n = v.len();
    let mut i: usize = 0;
    while i < n
        invariant
            0 <= i <= n,
            n == v@.len(),
            forall|j: int| 0 <= j < i ==> usizes_view(v@)[j] != x as int,
        decreases n - i,
    {
        if v[i] == x {
            proof {
                assert(usizes_view(v@)[i as int] == x as int);
            }
            return true;
        }
        i += 1;
    }
    proof {
        assert forall|j: int| 0 <= j < usizes_view(v@).len() implies usizes_view(v@)[j] != (
        x as int) by {}
    }
    false
}

/// The block-start instruction indices, in increasing order.
fn compute_boundaries(instructions: &Vec<Instruction>) -> (r: Vec<usize>)
    ensures
        usizes_view(r@) == boundaries(instrs_view(instructions@)),
        forall|j: int| 0 <= j < r@.len() ==> (#[trigger] r@[j]) < instructions@.len(),
{
    let ghost instrs = instrs_view(instructions@);
    let n = instructions.len();
    let mut r: Vec<usize> = Vec::new();
    let mut k: usize = 0;
    let mut prev_op: u8 = 0;
    while k < n
        invariant
            0 <= k <= n,
            n == instructions@.len(),
            instrs == instrs_view(instructions@),
            usizes_view(r@) + boundaries_from(instrs, k as int) =~= boundaries(instrs),
            forall|j: int| 0 <= j < r@.len() ==> (#[trigger] r@[j]) < n,
            k > 0 ==> prev_op == instrs[k - 1].op_code,
        decreases n - k,
    {
        let op = instructions[k].op_code;
        proof {
            assert(instr_view(instructions@[k as int]) == instrs[k as int]);
        }
        let starts = k == 0 || op == JUMPDEST || op_codes::is_terminator(prev_op);
        if starts {
            let ghost old_r = r@;
            r.push(k);
            proof {
                assert(usizes_view(r@) =~= usizes_view(old_r) + seq![k as int]);
                assert(usizes_view(r@) + boundaries_from(instrs, k + 1) =~= boundaries(instrs));
            }
        } else {
            proof {
                assert(boundaries_from(instrs, k as int) == boundaries_from(instrs, k + 1));
            }
        }
        prev_op = op;
        k += 1;
    }
    proof {
        assert(usizes_view(r@) =~= usizes_view(r@) + boundaries_from(instrs, n as int));
        assert(usizes_view(r@) =~= boundaries(instrs));
    }
    r
}

/// The saturating sum of the base gas of an instruction index range.
fn block_gas(instructions: &Vec<Instruction>, from: usize, to: usize) -> (r: u64)
    requires
        from <= to <= instructions@.len(),
    ensures
        r as int == (if gas_sum(instrs_view(instructions@), from as int, to as int) <= u64::MAX {
            gas_sum(instrs_view(instructions@), from as int, to as int) as int
        } else {
            u64::MAX as int
        }),
{
    let ghost instrs = instrs_view(instructions@);
    let mut acc: u64 = 0;
    let mut k: usize = from;
    while k < to
        invariant
            from <= k <= to,
            to <= instructions@.len(),
            instrs == instrs_view(instructions@),
            acc as int == (if gas_sum(instrs, from as int, k as int) <= u64::MAX {
                gas_sum(instrs, from as int, k as int) as int
            } else {
                u64::MAX as int
            }),
        decreases to - k,
    {
        let g = op_codes::base_gas(instructions[k].op_code) as u64;
        proof {
            assert(instr_view(instructions@[k as int]) == instrs[k as int]);
            assert(gas_sum(instrs, from as int, k + 1) == gas_sum(instrs, from as int, k as int)
                + base_gas_spec(instrs[k as int].op_code));
        }
        if acc > u64::MAX - g {
            acc = u64::MAX;
        } else {
            acc = acc + g;
        }
        k += 1;
    }
    acc
}

/// Whether some block starts at byte position `target` with a jump
/// destination instruction.
fn find_jumpdest_block(instructions: &Vec<Instruction>, bnd: &Vec<usize>, target: usize) -> (r:
    bool)
    requires
        usizes_view(bnd@) == boundaries(instrs_view(instructions@)),
        forall|j: int| 0 <= j < bnd@.len() ==> (#[trigger] bnd@[j]) < instructions@.len(),
    ensures
        r == has_jumpdest_block(instrs_view(instructions@), target as int),
{
    let ghost instrs = instrs_view(instructions@);
    let nb = bnd.len();
    let mut j: usize = 0;
    while j < nb
        invariant
            0 <= j <= nb,
            nb == bnd@.len(),
            instrs == instrs_view(instructions@),
            usizes_view(bnd@) == boundaries(instrs),
            forall|q: int| 0 <= q < bnd@.len() ==> (#[trigger] bnd@[q]) < instructions@.len(),
            forall|q: int|
                0 <= q < j ==> !(block_start_pos(instrs, q) == target as int && instrs[
                #[trigger] block_from(instrs, q)].op_code == JUMPDEST),
        decreases nb - j,
    {
        let bj = bnd[j];
        proof {
            assert(instr_view(instructions@[bj as int]) == instrs[bj as int]);
            assert(block_from(instrs, j as int) == bj as int);
        }
        if instructions[bj].position == target && instructions[bj].op_code == JUMPDEST {
            proof {
                assert(block_start_pos(instrs, j as int) == target as int);
            }
            return true;
        }
        j += 1;
    }
    proof {
        assert forall|q: int|
            0 <= q < boundaries(instrs).len() implies !(block_start_pos(instrs, q) == target as int
            && instrs[#[trigger] block_from(instrs, q)].op_code == JUMPDEST) by {}
    }
    false
}

/// Copy of a vector of offsets.
fn usizes_clone(a: &Vec<usize>) -> (r: Vec<usize>)
    ensures
        r@ == a@,
{
    let n = a.len();
    let mut r: Vec<usize> = Vec::new();
    let mut i: usize = 0;
    while i < n
        invariant
            0 <= i <= n,
            n == a@.len(),
            r@ =~= a@.subrange(0, i as int),
        decreases n - i,
    {
        r.push(a[i]);
        i += 1;
    }
    proof {
        assert(r@ =~= a@);
    }
    r
}

/// The exits and the dynamic-jump flag of block `i`.
fn compute_exits(instructions: &Vec<Instruction>, bnd: &Vec<usize>, i: usize) -> (r: (
    Vec<usize>,
    bool,
))
    requires
        usizes_view(bnd@) == boundaries(instrs_view(instructions@)),
        forall|j: int| 0 <= j < bnd@.len() ==> (#[trigger] bnd@[j]) < instructions@.len(),
        0 <= i < bnd@.len(),
    ensures
        usizes_view(r.0@) == exits_of(instrs_view(instructions@), i as int),
        r.1 == dyn_of(instrs_view(instructions@), i as int),
{
    let ghost instrs = instrs_view(instructions@);
    proof {
        lemma_boundaries_chain(instrs, 0);
    }
    let nb = bnd.len();
    let n = instructions.len();
    let to: usize = if i + 1 < nb {
        bnd[i + 1]
    } else {
        n
    };
    proof {
        assert(usizes_view(bnd@)[i as int] == bnd@[i as int] as int);
        if i + 1 < nb {
            assert(usizes_view(bnd@)[i + 1] == bnd@[i + 1] as int);
            assert(boundaries(instrs)[i as int] < boundaries(instrs)[i + 1]);
        }
        assert(block_to(instrs, i as int) == to as int);
        assert(bnd@[i as int] < to);
    }
    let li = &instructions[to - 1];
    proof {
        assert(instr_view(instructions@[to - 1]) == instrs[to - 1]);
        assert(block_last(instrs, i as int) == instrs[to - 1]);
    }
    let last_op = li.op_code;
    let mut exits: Vec<usize> = Vec::new();
    let mut fall: Option<usize> = None;
    if i + 1 < nb && (!op_codes::is_terminator(last_op) || last_op == JUMPI) {
        let s = instructions[bnd[i + 1]].position;
        proof {
            assert(instr_view(instructions@[bnd@[i + 1] as int]) == instrs[bnd@[i + 1] as int]);
            assert(block_start_pos(instrs, i + 1) == s as int);
        }
        exits.push(s);
        fall = Some(s);
    }
    proof {
        match fall {
            Some(f) => {
                assert(fall_exit(instrs, i as int) =~= seq![f as int]);
            },
            None => {
                assert(fall_exit(instrs, i as int) =~= Seq::<int>::empty());
            },
        }
    }
    let mut dynj = false;
    let mut resolved = false;
    if op_codes::is_jump(last_op) {
        if li.inputs.len() >= 1 {
            match &li.inputs[0] {
                crate::expression::OpTree::Constant(bv) => {
                    proof {
                        assert(instrs[to - 1].inputs[0] == crate::expression::tree_view(
                            li.inputs@[0],
                        ));
                        assert(jump_target(block_last(instrs, i as int)) == Some(bv.val()));
                    }
                    match bv.to_position() {
                        Some(t) => {
                            if find_jumpdest_block(instructions, bnd, t) {
                                resolved = true;
                                let dup = match fall {
                                    Some(f) => f == t,
                                    None => false,
                                };
                                if !dup {
                                    exits.push(t);
                                }
                            }
                        },
                        None => {
                            proof {
                                assert forall|j: int|
                                    0 <= j < boundaries(instrs).len() implies block_start_pos(
                                    instrs,
                                    j,
                                ) != bv.val() as int by {
                                    assert(instr_view(
                                        instructions@[boundaries(instrs)[j] as int],
                                    ) == instrs[boundaries(instrs)[j] as int]);
                                }
                                assert(!has_jumpdest_block(instrs, bv.val() as int));
                            }
                        },
                    }
                },
                _ => {
                    proof {
                        assert(instrs[to - 1].inputs[0] == crate::expression::tree_view(
                            li.inputs@[0],
                        ));
                        assert(jump_target(block_last(instrs, i as int)) is None);
                    }
                },
            }
        } else {
            proof {
                assert(instrs[to - 1].inputs.len() == 0);
            }
        }
        dynj = !resolved;
    }
    proof {
        assert(resolved == taken_resolved(instrs, i as int));
        assert(dynj == dyn_of(instrs, i as int));
        assert(usizes_view(exits@) =~= exits_of(instrs, i as int));
    }
    (exits, dynj)
}

/// The entries of block `i`, from the already computed exits.
fn compute_entries(
    instructions: &Vec<Instruction>,
    starts: &Vec<usize>,
    exitss: &Vec<Vec<usize>>,
    i: usize,
) -> (r: Vec<usize>)
    requires
        starts@.len() == boundaries(instrs_view(instructions@)).len(),
        exitss@.len() == starts@.len(),
        forall|j: int|
            0 <= j < starts@.len() ==> (#[trigger] starts@[j]) as int == block_start_pos(
                instrs_view(instructions@),
                j,
            ),
        forall|j: int|
            0 <= j < exitss@.len() ==> usizes_view((#[trigger] exitss@[j])@) == exits_of(
                instrs_view(instructions@),
                j,
            ),
        0 <= i < starts@.len(),
    ensures
        usizes_view(r@) == entries_of(instrs_view(instructions@), i as int),
{
    let ghost instrs = instrs_view(instructions@);
    let nb = starts.len();
    let mut r: Vec<usize> = Vec::new();
    let mut j: usize = 0;
    while j < nb
        invariant
            0 <= j <= nb,
            nb == starts@.len() == exitss@.len(),
            nb == boundaries(instrs).len(),
            instrs == instrs_view(instructions@),
            0 <= i < nb,
            forall|q: int|
                0 <= q < nb ==> (#[trigger] starts@[q]) as int == block_start_pos(instrs, q),
            forall|q: int|
                0 <= q < nb ==> usizes_view((#[trigger] exitss@[q])@) == exits_of(instrs, q),
            usizes_view(r@) + entries_of_from(instrs, i as int, j as int) =~= entries_of(
                instrs,
                i as int,
            ),
        decreases nb - j,
    {
        if contains_usize(&exitss[j], starts[i]) {
            let ghost old_r = r@;
            r.push(starts[j]);
            proof {
                assert(usizes_view(r@) =~= usizes_view(old_r) + seq![starts@[j as int] as int]);
                assert(entries_of_from(instrs, i as int, j as int) == seq![
                    block_start_pos(instrs, j as int),
                ] + entries_of_from(instrs, i as int, j + 1));
                assert(usizes_view(r@) + entries_of_from(instrs, i as int, j + 1) =~= entries_of(
                    instrs,
                    i as int,
                ));
            }
        } else {
            proof {
                assert(entries_of_from(instrs, i as int, j as int) =~= Seq::<int>::empty()
                    + entries_of_from(instrs, i as int, j + 1));
            }
        }
        j += 1;
    }
    proof {
        assert(usizes_view(r@) =~= usizes_view(r@) + entries_of_from(instrs, i as int, nb as int));
    }
    r
}

/// One round of reachability propagation.
fn reach_step_exec(
    instructions: &Vec<Instruction>,
    starts: &Vec<usize>,
    exitss: &Vec<Vec<usize>>,
    m: &Vec<bool>,
) -> (r: Vec<bool>)
    requires
        starts@.len() == boundaries(instrs_view(instructions@)).len(),
        exitss@.len() == starts@.len(),
        m@.len() == starts@.len(),
        forall|j: int|
            0 <= j < starts@.len() ==> (#[trigger] starts@[j]) as int == block_start_pos(
                instrs_view(instructions@),
                j,
            ),
        forall|j: int|
            0 <= j < exitss@.len() ==> usizes_view((#[trigger] exitss@[j])@) == exits_of(
                instrs_view(instructions@),
                j,
            ),
    ensures
        r@ == reach_step(instrs_view(instructions@), m@),
{
    let ghost instrs = instrs_view(instructions@);
    let nb = starts.len();
    let mut r: Vec<bool> = Vec::new();
    let mut i: usize = 0;
    while i < nb
        invariant
            0 <= i <= nb,
            nb == starts@.len() == exitss@.len() == m@.len(),
            nb == boundaries(instrs).len(),
            instrs == instrs_view(instructions@),
            forall|q: int|
                0 <= q < nb ==> (#[trigger] starts@[q]) as int == block_start_pos(instrs, q),
            forall|q: int|
                0 <= q < nb ==> usizes_view((#[trigger] exitss@[q])@) == exits_of(instrs, q),
            r@.len() == i,
            forall|q: int| 0 <= q < i ==> r@[q] == reach_step(instrs, m@)[q],
        decreases nb - i,
    {
        let mut flag = m[i];
        let mut j: usize = 0;
        while j < nb && !flag
            invariant
                0 <= j <= nb,
                nb == starts@.len() == exitss@.len() == m@.len(),
                nb == boundaries(instrs).len(),
                instrs == instrs_view(instructions@),
                0 <= i < nb,
                forall|q: int|
                    0 <= q < nb ==> (#[trigger] starts@[q]) as int == block_start_pos(instrs, q),
                forall|q: int|
                    0 <= q < nb ==> usizes_view((#[trigger] exitss@[q])@) == exits_of(instrs, q),
                flag ==> (m@[i as int] || exists|p: int|
                    0 <= p < nb && m@[p] && exits_of(instrs, p).contains(
                        block_start_pos(instrs, i as int),
                    )),
                !flag ==> !m@[i as int] && forall|p: int|
                    0 <= p < j ==> !(m@[p] && exits_of(instrs, p).contains(
                        block_start_pos(instrs, i as int),
                    )),
            decreases nb - j,
        {
            if m[j] && contains_usize(&exitss[j], starts[i]) {
                flag = true;
            }
            j += 1;
        }
        r.push(flag);
        proof {
            assert(r@[i as int] == reach_step(instrs, m@)[i as int]);
        }
        i += 1;
    }
    proof {
        assert(r@ =~= reach_step(instrs, m@));
    }
    r
}

/// Builds the block map: spans, exits with static jump resolution,
/// the transposed entries, reachability from the block at position
/// 0, the dynamic-jump flags, and the gas estimates.  The result is
/// a function of the analyzed instructions alone.
#[verifier::rlimit(100)]
pub fn build_blocks(instructions: &Vec<Instruction>, code_len: usize) -> (r: Vec<Block>)
    ensures
        blocks_view(r@) == blocks_spec(instrs_view(instructions@), code_len as int),
{
    let ghost instrs = instrs_view(instructions@);
    proof {
        lemma_boundaries_chain(instrs, 0);
    }
    let bnd = compute_boundaries(instructions);
    let nb = bnd.len();
    let n = instructions.len();
    let mut starts: Vec<usize> = Vec::new();
    let mut ends: Vec<usize> = Vec::new();
    let mut gases: Vec<u64> = Vec::new();
    let mut dyns: Vec<bool> = Vec::new();
    let mut exitss: Vec<Vec<usize>> = Vec::new();
    let mut i: usize = 0;
    while i < nb
        invariant
            0 <= i <= nb,
            nb == bnd@.len(),
            n == instructions@.len(),
            instrs == instrs_view(instructions@),
            usizes_view(bnd@) == boundaries(instrs),
            forall|j: int| 0 <= j < bnd@.len() ==> (#[trigger] bnd@[j]) < n,
            starts@.len() == i && ends@.len() == i && gases@.len() == i && dyns@.len() == i
                && exitss@.len() == i,
            forall|q: int|
                0 <= q < i ==> (#[trigger] starts@[q]) as int == block_start_pos(instrs, q),
            forall|q: int|
                0 <= q < i ==> (#[trigger] ends@[q]) as int == block_end_pos(
                    instrs,
                    code_len as int,
                    q,
                ),
            forall|q: int| 0 <= q < i ==> (#[trigger] gases@[q]) as int == gas_of(instrs, q),
            forall|q: int| 0 <= q < i ==> (#[trigger] dyns@[q]) == dyn_of(instrs, q),
            forall|q: int|
                0 <= q < i ==> usizes_view((#[trigger] exitss@[q])@) == exits_of(instrs, q),
        decreases nb - i,
    {
        let from = bnd[i];
        let to: usize = if i + 1 < nb {
            bnd[i + 1]
        } else {
            n
        };
        proof {
            lemma_boundaries_chain(instrs, 0);
            assert(usizes_view(bnd@)[i as int] == bnd@[i as int] as int);
            if i + 1 < nb {
                assert(usizes_view(bnd@)[i + 1] == bnd@[i + 1] as int);
                assert(boundaries(instrs)[i as int] < boundaries(instrs)[i + 1]);
            }
            assert(block_from(instrs, i as int) == from as int);
            assert(block_to(instrs, i as int) == to as int);
            assert(from <= to <= n);
        }
        let s = instructions[from].position;
        proof {
            assert(instr_view(instructions@[from as int]) == instrs[from as int]);
            assert(s as int == block_start_pos(instrs, i as int));
        }
        let e: usize = if i + 1 < nb {
            let b1 = bnd[i + 1];
            proof {
                assert(instr_view(instructions@[b1 as int]) == instrs[b1 as int]);
            }
            instructions[b1].position
        } else {
            code_len
        };
        proof {
            assert(e as int == block_end_pos(instrs, code_len as int, i as int));
        }
        let g = block_gas(instructions, from, to);
        let (ex, dj) = compute_exits(instructions, &bnd, i);
        starts.push(s);
        ends.push(e);
        gases.push(g);
        dyns.push(dj);
        exitss.push(ex);
        i += 1;
    }
    let mut entriess: Vec<Vec<usize>> = Vec::new();
    let mut i: usize = 0;
    while i < nb
        invariant
            0 <= i <= nb,
            nb == starts@.len() == exitss@.len(),
            nb == boundaries(instrs).len(),
            instrs == instrs_view(instructions@),
            forall|q: int|
                0 <= q < nb ==> (#[trigger] starts@[q]) as int == block_start_pos(instrs, q),
            forall|q: int|
                0 <= q < nb ==> usizes_view((#[trigger] exitss@[q])@) == exits_of(instrs, q),
            entriess@.len() == i,
            forall|q: int|
                0 <= q < i ==> usizes_view((#[trigger] entriess@[q])@) == entries_of(instrs, q),
        decreases nb - i,
    {
        let en = compute_entries(instructions, &starts, &exitss, i);
        entriess.push(en);
        i += 1;
    }
    let mut m: Vec<bool> = Vec::new();
    let mut i: usize = 0;
    while i < nb
        invariant
            0 <= i <= nb,
            m@.len() == i,
            forall|q: int| 0 <= q < i ==> (#[trigger] m@[q]) == (q == 0),
        decreases nb - i,
    {
        m.push(i == 0);
        i += 1;
    }
    proof {
        assert(m@ =~= reach_iter(instrs, 0));
    }
    let mut round: usize = 0;
    while round < nb
        invariant
            0 <= round <= nb,
            nb == starts@.len() == exitss@.len(),
            nb == boundaries(instrs).len(),
            instrs == instrs_view(instructions@),
            forall|q: int|
                0 <= q < nb ==> (#[trigger] starts@[q]) as int == block_start_pos(instrs, q),
            forall|q: int|
                0 <= q < nb ==> usizes_view((#[trigger] exitss@[q])@) == exits_of(instrs, q),
            m@ == reach_iter(instrs, round as nat),
            m@.len() == nb,
        decreases nb - round,
    {
        let m2 = reach_step_exec(instructions, &starts, &exitss, &m);
        proof {
            assert(m2@ == reach_iter(instrs, (round + 1) as nat));
        }
        m = m2;
        round += 1;
    }
    let mut blocks: Vec<Block> = Vec::new();
    let mut i: usize = 0;
    while i < nb
        invariant
            0 <= i <= nb,
            nb == starts@.len() == ends@.len() == gases@.len(),
            nb == dyns@.len() == exitss@.len() == entriess@.len(),
            m@.len() == nb,
            nb == boundaries(instrs).len(),
            instrs == instrs_view(instructions@),
            forall|q: int|
                0 <= q < nb ==> (#[trigger] starts@[q]) as int == block_start_pos(instrs, q),
            forall|q: int|
                0 <= q < nb ==> (#[trigger] ends@[q]) as int == block_end_pos(
                    instrs,
                    code_len as int,
                    q,
                ),
            forall|q: int| 0 <= q < nb ==> (#[trigger] gases@[q]) as int == gas_of(instrs, q),
            forall|q: int| 0 <= q < nb ==> (#[trigger] dyns@[q]) == dyn_of(instrs, q),
            forall|q: int|
                0 <= q < nb ==> usizes_view((#[trigger] exitss@[q])@) == exits_of(instrs, q),
            forall|q: int|
                0 <= q < nb ==> usizes_view((#[trigger] entriess@[q])@) == entries_of(instrs, q),
            m@ == reach_of(instrs),
            blocks@.len() == i,
            forall|q: int|
                0 <= q < i ==> block_view(#[trigger] blocks@[q]) == blocks_spec(
                    instrs,
                    code_len as int,
                )[q],
        decreases nb - i,
    {
        let b = Block {
            start: starts[i],
            end: ends[i],
            reachable: m[i],
            dynamic_jump: dyns[i],
            gas_price: gases[i],
            entries: usizes_clone(&entriess[i]),
            exits: usizes_clone(&exitss[i]),
        };
        proof {
            assert(block_view(b) == blocks_spec(instrs, code_len as int)[i as int]);
        }
        blocks.push(b);
        i += 1;
    }
    proof {
        assert(blocks_view(blocks@) =~= blocks_spec(instrs, code_len as int));
    }
    blocks
}

/// Boundaries increase strictly across any distance.
pub proof fn lemma_boundaries_increasing(instrs: Seq<InstrV>, j1: int, j2: int)
    requires
        0 <= j1 < j2 < boundaries(instrs).len(),
    ensures
        boundaries(instrs)[j1] < boundaries(instrs)[j2],
    decreases j2 - j1,
{
    lemma_boundaries_chain(instrs, 0);
    assert(boundaries(instrs)[j1] < boundaries(instrs)[(j1) + 1]);
    if j2 > j1 + 1 {
        lemma_boundaries_increasing(instrs, j1 + 1, j2);
    }
}

/// Block partition: every instruction index lies in the index range
/// of exactly one block.
pub proof fn lemma_block_partition(instrs: Seq<InstrV>, k: int)
    requires
        0 <= k < instrs.len(),
    ensures
        exists|i: int|
            0 <= i < boundaries(instrs).len() && #[trigger] block_from(instrs, i) <= k < block_to(
                instrs,
                i,
            ),
        forall|i1: int, i2: int|
            (0 <= i1 < boundaries(instrs).len() && 0 <= i2 < boundaries(instrs).len()
                && #[trigger] block_from(instrs, i1) <= k < block_to(instrs, i1)
                && #[trigger] block_from(instrs, i2) <= k < block_to(instrs, i2)) ==> i1 == i2,
    decreases k,
{
    lemma_boundaries_chain(instrs, 0);
    let b = boundaries(instrs);
    if is_block_start(instrs, k) {
        assert(b.contains(k));
        let i = choose|i: int| 0 <= i < b.len() && b[i] == k;
        assert(block_from(instrs, i) <= k);
        if i + 1 < b.len() {
            lemma_boundaries_increasing(instrs, i, i + 1);
        }
        assert(block_from(instrs, i) <= k < block_to(instrs, i));
    } else {
        assert(k > 0);
        lemma_block_partition(instrs, k - 1);
        let i = choose|i: int|
            0 <= i < b.len() && #[trigger] block_from(instrs, i) <= k - 1 < block_to(instrs, i);
        if k >= block_to(instrs, i) {
            assert(k == block_to(instrs, i));
            if i + 1 < b.len() {
                assert(b[i + 1] == k);
                assert(is_block_start(instrs, k));
            } else {
                assert(block_to(instrs, i) == instrs.len());
            }
            assert(false);
        }
        assert(block_from(instrs, i) <= k < block_to(instrs, i));
    }
    assert forall|i1: int, i2: int|
        (0 <= i1 < b.len() && 0 <= i2 < b.len() && #[trigger] block_from(instrs, i1) <= k
            < block_to(instrs, i1) && #[trigger] block_from(instrs, i2) <= k < block_to(
            instrs,
            i2,
        )) implies i1 == i2 by {
        if i1 < i2 {
            lemma_boundaries_increasing(instrs, i1 + 1 - 1, i2);
            if i1 + 1 < b.len() {
                lemma_boundaries_increasing(instrs, i1, i2);
                if i1 + 1 <= i2 {
                    if i1 + 1 < i2 {
                        lemma_boundaries_increasing(instrs, i1 + 1, i2);
                    }
                    assert(block_to(instrs, i1) <= block_from(instrs, i2));
                }
            }
            assert(false);
        }
        if i2 < i1 {
            if i2 + 1 < b.len() {
                if i2 + 1 < i1 {
                    lemma_boundaries_increasing(instrs, i2 + 1, i1);
                }
                assert(block_to(instrs, i2) <= block_from(instrs, i1));
            }
            assert(false);
        }
    }
}

/// Membership in the entries relation, unfolded: a start is listed
/// for block `i` exactly when some block from `j` on exits to `i`.
pub proof fn lemma_entries_member(instrs: Seq<InstrV>, i: int, j: int, x: int)
    requires
        0 <= j <= boundaries(instrs).len(),
    ensures
        entries_of_from(instrs, i, j).contains(x) <==> exists|q: int|
            j <= q < boundaries(instrs).len() && #[trigger] block_start_pos(instrs, q) == x
                && exits_of(instrs, q).contains(block_start_pos(instrs, i)),
    decreases boundaries(instrs).len() - j,
{
    let nb = boundaries(instrs).len() as int;
    if j < nb {
        lemma_entries_member(instrs, i, j + 1, x);
        let e = entries_of_from(instrs, i, j);
        let tail = entries_of_from(instrs, i, j + 1);
        if exits_of(instrs, j).contains(block_start_pos(instrs, i)) {
            assert(e == seq![block_start_pos(instrs, j)] + tail);
            if e.contains(x) {
                let m = choose|m: int| 0 <= m < e.len() && e[m] == x;
                if m == 0 {
                    assert(block_start_pos(instrs, j) == x);
                } else {
                    assert(tail[m - 1] == x);
                    assert(tail.contains(x));
                }
            }
            if block_start_pos(instrs, j) == x {
                assert(e[0] == x);
                assert(e.contains(x));
            }
            if exists|q: int|
                j + 1 <= q < nb && #[trigger] block_start_pos(instrs, q) == x && exits_of(
                    instrs,
                    q,
                ).contains(block_start_pos(instrs, i)) {
                let q = choose|q: int|
                    j + 1 <= q < nb && #[trigger] block_start_pos(instrs, q) == x && exits_of(
                        instrs,
                        q,
                    ).contains(block_start_pos(instrs, i));
                assert(tail.contains(x));
                let m = choose|m: int| 0 <= m < tail.len() && tail[m] == x;
                assert(e[m + 1] == x);
                assert(e.contains(x));
            }
        } else {
            assert(e =~= tail);
        }
    }
}

/// Edge symmetry, forward: an exit edge is mirrored in the target's
/// entries.
pub proof fn lemma_edge_symmetry_fwd(instrs: Seq<InstrV>, i: int, j: int)
    requires
        0 <= i < boundaries(instrs).len(),
        0 <= j < boundaries(instrs).len(),
        exits_of(instrs, j).contains(block_start_pos(instrs, i)),
    ensures
        entries_of(instrs, i).contains(block_start_pos(instrs, j)),
{
    lemma_entries_member(instrs, i, 0, block_start_pos(instrs, j));
}

/// Edge symmetry, backward: a listed entry start names some block
/// with that start whose exits contain this block's start.  When
/// block starts are distinct (as in any disassembled stream), the
/// two directions make the entry and exit relations exact mirrors.
pub proof fn lemma_edge_symmetry_bwd(instrs: Seq<InstrV>, i: int, j: int)
    requires
        0 <= i < boundaries(instrs).len(),
        0 <= j < boundaries(instrs).len(),
        entries_of(instrs, i).contains(block_start_pos(instrs, j)),
        forall|q1: int, q2: int|
            0 <= q1 < q2 < boundaries(instrs).len() ==> #[trigger] block_start_pos(instrs, q1)
                != #[trigger] block_start_pos(instrs, q2),
    ensures
        exits_of(instrs, j).contains(block_start_pos(instrs, i)),
{
    lemma_entries_member(instrs, i, 0, block_start_pos(instrs, j));
    let q = choose|q: int|
        0 <= q < boundaries(instrs).len() && #[trigger] block_start_pos(instrs, q)
            == block_start_pos(instrs, j) && exits_of(instrs, q).contains(
            block_start_pos(instrs, i),
        );
    if q < j {
        assert(block_start_pos(instrs, q) != block_start_pos(instrs, j));
    }
    if j < q {
        assert(block_start_pos(instrs, j) != block_start_pos(instrs, q));
    }
}

/// Every propagation round keeps the length of the flag vector.
pub proof fn lemma_reach_iter_len(instrs: Seq<InstrV>, k: nat)
    ensures
        reach_iter(instrs, k).len() == boundaries(instrs).len(),
    decreases k,
{
    if k > 0 {
        lemma_reach_iter_len(instrs, (k - 1) as nat);
    }
}

/// Propagation keeps every reached block reached.
pub proof fn lemma_reach_monotone(instrs: Seq<InstrV>, k: nat, i: int)
    requires
        0 <= i < boundaries(instrs).len(),
        reach_iter(instrs, k)[i],
    ensures
        forall|k2: nat| k2 >= k ==> reach_iter(instrs, k2)[i],
{
    assert forall|k2: nat| k2 >= k implies reach_iter(instrs, k2)[i] by {
        lemma_reach_monotone_step(instrs, k, k2, i);
    }
}

proof fn lemma_reach_monotone_step(instrs: Seq<InstrV>, k: nat, k2: nat, i: int)
    requires
        0 <= i < boundaries(instrs).len(),
        reach_iter(instrs, k)[i],
        k2 >= k,
    ensures
        reach_iter(instrs, k2)[i],
    decreases k2 - k,
{
    lemma_reach_iter_len(instrs, k);
    lemma_reach_iter_len(instrs, k2);
    if k2 > k {
        lemma_reach_monotone_step(instrs, k, (k2 - 1) as nat, i);
        lemma_reach_iter_len(instrs, (k2 - 1) as nat);
        let m = reach_iter(instrs, (k2 - 1) as nat);
        assert(reach_iter(instrs, k2) == reach_step(instrs, m));
        assert(reach_step(instrs, m)[i] == (m[i] || exists|j: int|
            0 <= j < m.len() && m[j] && exits_of(instrs, j).contains(
                block_start_pos(instrs, i),
            )));
    }
}

/// Reachability, part one: the block containing position 0 is always
/// reachable.
pub proof fn lemma_first_block_reachable(instrs: Seq<InstrV>)
    requires
        boundaries(instrs).len() > 0,
    ensures
        reach_of(instrs)[0],
{
    lemma_reach_iter_len(instrs, 0);
    assert(reach_iter(instrs, 0)[0]);
    lemma_reach_monotone(instrs, 0, 0);
    lemma_reach_iter_len(instrs, boundaries(instrs).len());
}

/// Reachability, part two: a block with an empty entries relation,
/// other than the first, is never reached.
pub proof fn lemma_no_entries_unreachable(instrs: Seq<InstrV>, i: int)
    requires
        0 < i < boundaries(instrs).len(),
        entries_of(instrs, i).len() == 0,
    ensures
        !reach_of(instrs)[i],
{
    lemma_no_entries_unreachable_iter(instrs, i, boundaries(instrs).len());
}

proof fn lemma_no_entries_unreachable_iter(instrs: Seq<InstrV>, i: int, k: nat)
    requires
        0 < i < boundaries(instrs).len(),
        entries_of(instrs, i).len() == 0,
    ensures
        !reach_iter(instrs, k)[i],
    decreases k,
{
    lemma_reach_iter_len(instrs, k);
    if k > 0 {
        lemma_no_entries_unreachable_iter(instrs, i, (k - 1) as nat);
        lemma_reach_iter_len(instrs, (k - 1) as nat);
        let m = reach_iter(instrs, (k - 1) as nat);
        assert forall|j: int|
            0 <= j < m.len() implies !(m[j] && exits_of(instrs, j).contains(
            block_start_pos(instrs, i),
        )) by {
            if exits_of(instrs, j).contains(block_start_pos(instrs, i)) {
                lemma_entries_member(instrs, i, 0, block_start_pos(instrs, j));
                assert(entries_of(instrs, i).contains(block_start_pos(instrs, j)));
            }
        }
        assert(reach_iter(instrs, k) == reach_step(instrs, m));
        assert(reach_step(instrs, m)[i] == (m[i] || exists|j: int|
            0 <= j < m.len() && m[j] && exits_of(instrs, j).contains(
                block_start_pos(instrs, i),
            )));
    }
}

/// Number of blocks marked reached.
spec fn count_true(m: Seq<bool>) -> nat
    decreases m.len(),
{
    if m.len() == 0 {
        0
    } else {
        (count_true(m.drop_last()) + if m.last() {
            1nat
        } else {
            0nat
        }) as nat
    }
}

proof fn lemma_count_le_len(m: Seq<bool>)
    ensures
        count_true(m) <= m.len(),
    decreases m.len(),
{
    if m.len() > 0 {
        lemma_count_le_len(m.drop_last());
    }
}

proof fn lemma_count_marked(m: Seq<bool>, j: int)
    requires
        0 <= j < m.len(),
        m[j],
    ensures
        count_true(m) >= 1,
    decreases m.len(),
{
    if j < m.len() - 1 {
        lemma_count_marked(m.drop_last(), j);
    }
}

/// A pointwise-larger flag vector has at least the same count, and
/// an equal count forces equality.
proof fn lemma_count_pointwise(m1: Seq<bool>, m2: Seq<bool>)
    requires
        m1.len() == m2.len(),
        forall|i: int| 0 <= i < m1.len() ==> m1[i] ==> m2[i],
    ensures
        count_true(m1) <= count_true(m2),
        count_true(m1) == count_true(m2) ==> m1 == m2,
    decreases m1.len(),
{
    if m1.len() > 0 {
        assert(forall|i: int|
            0 <= i < m1.drop_last().len() ==> m1.drop_last()[i] ==> m2.drop_last()[i]);
        lemma_count_pointwise(m1.drop_last(), m2.drop_last());
        if count_true(m1) == count_true(m2) {
            assert(m1.drop_last() == m2.drop_last());
            assert(m1.last() == m2.last());
            assert(m1 =~= m1.drop_last().push(m1.last()));
            assert(m2 =~= m2.drop_last().push(m2.last()));
        }
    }
}

/// One propagation round never unmarks a block.
proof fn lemma_step_pointwise(instrs: Seq<InstrV>, m: Seq<bool>)
    ensures
        reach_step(instrs, m).len() == m.len(),
        forall|i: int| 0 <= i < m.len() ==> m[i] ==> reach_step(instrs, m)[i],
{
}

/// Once a round changes nothing, no later round does.
proof fn lemma_iter_stable(instrs: Seq<InstrV>, k: nat, k2: nat)
    requires
        reach_iter(instrs, (k + 1) as nat) == reach_iter(instrs, k),
        k2 >= k,
    ensures
        reach_iter(instrs, k2) == reach_iter(instrs, k),
    decreases k2 - k,
{
    if k2 > k {
        lemma_iter_stable(instrs, k, (k2 - 1) as nat);
        assert(reach_iter(instrs, k2) == reach_step(instrs, reach_iter(instrs, (k2 - 1) as nat)));
        assert(reach_iter(instrs, (k + 1) as nat) == reach_step(instrs, reach_iter(instrs, k)));
    }
}

/// Either the count of reached blocks has grown every round so far,
/// or some earlier round already changed nothing.
proof fn lemma_iter_progress(instrs: Seq<InstrV>, k: nat)
    requires
        boundaries(instrs).len() > 0,
        k <= boundaries(instrs).len(),
    ensures
        count_true(reach_iter(instrs, k)) >= k + 1 || exists|k2: nat|
            k2 < k && reach_iter(instrs, #[trigger] ((k2 + 1) as nat)) == reach_iter(instrs, k2),
    decreases k,
{
    lemma_reach_iter_len(instrs, k);
    if k == 0 {
        assert(reach_iter(instrs, 0)[0]);
        lemma_count_marked(reach_iter(instrs, 0), 0);
    } else {
        lemma_iter_progress(instrs, (k - 1) as nat);
        lemma_reach_iter_len(instrs, (k - 1) as nat);
        let prev = reach_iter(instrs, (k - 1) as nat);
        let cur = reach_iter(instrs, k);
        if exists|k2: nat|
            k2 < k - 1 && reach_iter(instrs, #[trigger] ((k2 + 1) as nat)) == reach_iter(
                instrs,
                k2,
            ) {
            let k2 = choose|k2: nat|
                k2 < k - 1 && reach_iter(instrs, #[trigger] ((k2 + 1) as nat)) == reach_iter(
                    instrs,
                    k2,
                );
            assert(k2 < k && reach_iter(instrs, (k2 + 1) as nat) == reach_iter(instrs, k2));
        } else {
            assert(count_true(prev) >= k);
            assert(cur == reach_step(instrs, prev));
            lemma_step_pointwise(instrs, prev);
            lemma_count_pointwise(prev, cur);
            if cur == prev {
                let k2 = (k - 1) as nat;
                assert(reach_iter(instrs, (k2 + 1) as nat) == reach_iter(instrs, k2));
            } else {
                assert(count_true(cur) >= k + 1);
            }
        }
    }
}

/// The iteration saturates: one more round changes nothing of the
/// final reachability.
proof fn lemma_reach_saturated(instrs: Seq<InstrV>)
    ensures
        reach_step(instrs, reach_of(instrs)) == reach_of(instrs),
{
    let nb = boundaries(instrs).len();
    lemma_reach_iter_len(instrs, nb);
    if nb == 0 {
        assert(reach_step(instrs, reach_of(instrs)) =~= reach_of(instrs));
    } else {
        lemma_iter_progress(instrs, nb);
        if count_true(reach_iter(instrs, nb)) >= nb + 1 {
            lemma_count_le_len(reach_iter(instrs, nb));
            assert(false);
        }
        let k2 = choose|k2: nat|
            k2 < nb && reach_iter(instrs, #[trigger] ((k2 + 1) as nat)) == reach_iter(instrs, k2);
        lemma_iter_stable(instrs, k2, nb);
        assert(reach_of(instrs) == reach_iter(instrs, k2));
        assert(reach_step(instrs, reach_of(instrs)) == reach_iter(instrs, (k2 + 1) as nat));
    }
}

/// A reached block other than the first owes its mark to a reached
/// predecessor with a resolved edge to it.
proof fn lemma_reach_source(instrs: Seq<InstrV>, k: nat, i: int)
    requires
        0 <= i < boundaries(instrs).len(),
        k <= boundaries(instrs).len(),
        reach_iter(instrs, k)[i],
        i != 0,
    ensures
        exists|j: int|
            0 <= j < boundaries(instrs).len() && reach_of(instrs)[j] && #[trigger] exits_of(
                instrs,
                j,
            ).contains(block_start_pos(instrs, i)),
    decreases k,
{
    lemma_reach_iter_len(instrs, k);
    if k == 0 {
        assert(false);
    } else {
        let m = reach_iter(instrs, (k - 1) as nat);
        lemma_reach_iter_len(instrs, (k - 1) as nat);
        assert(reach_iter(instrs, k) == reach_step(instrs, m));
        assert(reach_step(instrs, m)[i] == (m[i] || exists|j: int|
            0 <= j < m.len() && m[j] && exits_of(instrs, j).contains(
                block_start_pos(instrs, i),
            )));
        if m[i] {
            lemma_reach_source(instrs, (k - 1) as nat, i);
        } else {
            let j = choose|j: int|
                0 <= j < m.len() && m[j] && #[trigger] exits_of(instrs, j).contains(
                    block_start_pos(instrs, i),
                );
            lemma_reach_monotone_step(instrs, (k - 1) as nat, boundaries(instrs).len(), j);
        }
    }
}

/// Reachability, in full: a block is reached exactly when it is the
/// block containing position 0, or some reached block has a
/// resolved edge to its start.
pub proof fn lemma_reachability_fixpoint(instrs: Seq<InstrV>, i: int)
    requires
        0 <= i < boundaries(instrs).len(),
    ensures
        reach_of(instrs)[i] <==> (i == 0 || exists|j: int|
            0 <= j < boundaries(instrs).len() && reach_of(instrs)[j] && #[trigger] exits_of(
                instrs,
                j,
            ).contains(block_start_pos(instrs, i))),
{
    let nb = boundaries(instrs).len();
    lemma_reach_iter_len(instrs, nb);
    if reach_of(instrs)[i] && i != 0 {
        lemma_reach_source(instrs, nb, i);
    }
    if i == 0 {
        lemma_first_block_reachable(instrs);
    }
    if exists|j: int|
        0 <= j < nb && reach_of(instrs)[j] && #[trigger] exits_of(instrs, j).contains(
            block_start_pos(instrs, i),
        ) {
        lemma_reach_saturated(instrs);
        assert(reach_step(instrs, reach_of(instrs))[i] == (reach_of(instrs)[i] || exists|j: int|
            0 <= j < reach_of(instrs).len() && reach_of(instrs)[j] && exits_of(instrs, j).contains(
                block_start_pos(instrs, i),
            )));
    }
}

} // verus!
