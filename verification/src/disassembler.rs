//! Linear disassembly: one left-to-right walk that segments the byte
//! stream into variable-length instructions.  Immediate data is
//! consumed with its opcode and never rescanned as instructions.

use vstd::prelude::*;
use crate::instruction::{Instruction, InstrV, instr_view, instrs_view};
use crate::op_codes::imm_len_spec;
use crate::op_codes;

verus! {

/// Number of immediate bytes actually available at `pos`: the
/// declared length, truncated to what remains in the stream.
pub open spec fn avail_imm(code: Seq<u8>, pos: int) -> int {
    let il = imm_len_spec(code[pos]) as int;
    let rest = code.len() - pos - 1;
    if il <= rest {
        il
    } else {
        rest
    }
}

/// Total width of the instruction decoded at `pos`: the opcode byte
/// plus its available immediate data.  Always at least 1.
pub open spec fn instr_width(code: Seq<u8>, pos: int) -> int {
    1 + avail_imm(code, pos)
}

/// The instruction decoded at `pos`.
pub open spec fn disasm_at(code: Seq<u8>, pos: int) -> InstrV {
    let il = imm_len_spec(code[pos]) as int;
    InstrV {
        position: pos,
        op_code: code[pos],
        immediate: if il == 0 {
            None
        } else {
            Some(code.subrange(pos + 1, pos + 1 + avail_imm(code, pos)))
        },
        truncated: il > code.len() - pos - 1,
        stack_underflow: false,
        inputs: Seq::empty(),
        outputs: Seq::empty(),
    }
}

/// The instructions decoded from `pos` to the end of the stream.
pub open spec fn disasm_from(code: Seq<u8>, pos: int) -> Seq<InstrV>
    decreases code.len() - pos,
{
    if pos < 0 || pos >= code.len() {
        Seq::empty()
    } else {
        seq![disasm_at(code, pos)] + disasm_from(code, pos + instr_width(code, pos))
    }
}

/// The full disassembly of a byte stream.
pub open spec fn disasm_spec(code: Seq<u8>) -> Seq<InstrV> {
    disasm_from(code, 0)
}

/// Decodes the whole stream, producing one instruction per decoded
/// opcode in strictly increasing position order; operand and result
/// fields are left for the symbolic executor.
pub fn disassemble(code: &Vec<u8>) -> (r: Vec<Instruction>)
    ensures
        instrs_view(r@) == disasm_spec(code@),
        forall|k: int| 0 <= k < r@.len() ==> r@[k].inputs@.len() == 0 && r@[k].outputs@.len() == 0,
{
    let n = code.len();
    let mut r: Vec<Instruction> = Vec::new();
    let mut pos: usize = 0;
    while pos < n
        invariant
            0 <= pos <= n,
            n == code@.len(),
            instrs_view(r@) + disasm_from(code@, pos as int) =~= disasm_spec(code@),
            forall|k: int|
                0 <= k < r@.len() ==> r@[k].inputs@.len() == 0 && r@[k].outputs@.len() == 0,
        decreases n - pos,
    {
        let op = code[pos];
        let il = op_codes::imm_len(op) as usize;
        let rest = n - pos - 1;
        let take = if il <= rest {
            il
        } else {
            rest
        };
        let mut imm: Vec<u8> = Vec::new();
        let mut j: usize = 0;
        while j < take
            invariant
                0 <= j <= take,
                pos + 1 + take <= n,
                n == code@.len(),
                imm@ =~= code@.subrange(pos + 1, pos + 1 + j),
            decreases take - j,
        {
            imm.push(code[pos + 1 + j]);
            j += 1;
        }
        let ins = Instruction {
            position: pos,
            op_code: op,
            immediate_data: if il == 0 {
                None
            } else {
                Some(imm)
            },
            truncated: il > rest,
            stack_underflow: false,
            inputs: Vec::new(),
            outputs: Vec::new(),
        };
        proof {
            assert(instr_view(ins).immediate == disasm_at(code@, pos as int).immediate);
            assert(instr_view(ins).inputs =~= Seq::<crate::expression::OpTreeV>::empty());
            assert(instr_view(ins).outputs =~= Seq::<crate::expression::OpTreeV>::empty());
            assert(instr_view(ins) == disasm_at(code@, pos as int));
        }
        let ghost old_r = r@;
        r.push(ins);
        proof {
            assert(instrs_view(r@) =~= instrs_view(old_r) + seq![instr_view(ins)]);
            assert(instrs_view(r@) + disasm_from(code@, pos + instr_width(code@, pos as int))
                =~= disasm_spec(code@));
        }
        pos = pos + 1 + take;
    }
    proof {
        assert(instrs_view(r@) =~= instrs_view(r@) + disasm_from(code@, pos as int));
        assert(instrs_view(r@) == disasm_spec(code@));
    }
    r
}

/// Every instruction of the disassembly is the decoding at its own
/// position; positions start at `pos`, advance by exactly the
/// instruction width, and the last instruction ends at the stream
/// end.
pub proof fn lemma_disasm_chain(code: Seq<u8>, pos: int)
    requires
        0 <= pos <= code.len(),
    ensures
        disasm_from(code, pos).len() == 0 <==> pos == code.len(),
        disasm_from(code, pos).len() > 0 ==> disasm_from(code, pos)[0].position == pos,
        forall|k: int|
            0 <= k < disasm_from(code, pos).len() ==> pos <= (
            #[trigger] disasm_from(code, pos)[k]).position < code.len(),
        forall|k: int|
            0 <= k < disasm_from(code, pos).len() ==> #[trigger] disasm_from(code, pos)[k]
                == disasm_at(code, disasm_from(code, pos)[k].position),
        forall|k: int|
            0 <= k < disasm_from(code, pos).len() - 1 ==> (#[trigger] disasm_from(code, pos)[k
                + 1]).position == disasm_from(code, pos)[k].position + instr_width(
                code,
                disasm_from(code, pos)[k].position,
            ),
        disasm_from(code, pos).len() > 0 ==> disasm_from(code, pos).last().position + instr_width(
            code,
            disasm_from(code, pos).last().position,
        ) == code.len(),
    decreases code.len() - pos,
{
    if pos < code.len() {
        let w = instr_width(code, pos);
        assert(w >= 1);
        lemma_disasm_chain(code, pos + w);
        let d = disasm_from(code, pos);
        let tail = disasm_from(code, pos + w);
        assert(d == seq![disasm_at(code, pos)] + tail);
        assert(d[0] == disasm_at(code, pos));
        assert(forall|k: int| 1 <= k < d.len() ==> d[k] == tail[k - 1]);
        if tail.len() == 0 {
            assert(pos + w == code.len());
        }
        assert forall|k: int| 0 <= k < d.len() - 1 implies (#[trigger] d[k + 1]).position
            == d[k].position + instr_width(code, d[k].position) by {
            if k == 0 {
                assert(d[1] == tail[0]);
                assert(tail[0].position == pos + w);
            } else {
                assert(d[k] == tail[k - 1]);
                assert(tail[(k - 1) + 1].position == tail[k - 1].position + instr_width(
                    code,
                    tail[k - 1].position,
                ));
                assert(d[k + 1] == tail[(k - 1) + 1]);
            }
        }
    }
}

/// Any later instruction starts at or after the end of an earlier
/// one: decoded byte ranges never overlap.
pub proof fn lemma_disasm_no_overlap(code: Seq<u8>, k1: int, k2: int)
    requires
        0 <= k1 < k2 < disasm_spec(code).len(),
    ensures
        disasm_spec(code)[k1].position + instr_width(code, disasm_spec(code)[k1].position)
            <= disasm_spec(code)[k2].position,
    decreases k2 - k1,
{
    lemma_disasm_chain(code, 0);
    let d = disasm_spec(code);
    assert(d[(k1) + 1].position == d[k1].position + instr_width(code, d[k1].position));
    if k2 > k1 + 1 {
        lemma_disasm_no_overlap(code, k1 + 1, k2);
    }
}

/// Every byte position of the stream falls inside the byte range of
/// some decoded instruction.
pub proof fn lemma_disasm_covers(code: Seq<u8>, pos: int, i: int)
    requires
        0 <= pos <= i < code.len(),
    ensures
        exists|k: int|
            0 <= k < disasm_from(code, pos).len() && ((#[trigger] disasm_from(code, pos)[k]).position
                <= i < disasm_from(code, pos)[k].position + instr_width(
                code,
                disasm_from(code, pos)[k].position,
            )),
    decreases code.len() - pos,
{
    let d = disasm_from(code, pos);
    let w = instr_width(code, pos);
    if i < pos + w {
        assert(d[0].position == pos);
        assert(d[0].position <= i < d[0].position + instr_width(code, d[0].position));
    } else {
        lemma_disasm_covers(code, pos + w, i);
        let tail = disasm_from(code, pos + w);
        let k = choose|k: int|
            0 <= k < tail.len() && ((#[trigger] tail[k]).position <= i < tail[k].position
                + instr_width(code, tail[k].position));
        assert(d[k + 1] == tail[k]);
        assert(d[k + 1].position <= i < d[k + 1].position + instr_width(
            code,
            d[k + 1].position,
        ));
    }
}

/// Disassembly coverage: every byte position of the stream falls in
/// the byte range of some decoded instruction; together with
/// `lemma_disasm_no_overlap`, the decoded ranges exactly tile the
/// stream with no gaps and no overlaps.
pub proof fn lemma_disassembly_coverage(code: Seq<u8>, i: int)
    requires
        0 <= i < code.len(),
    ensures
        exists|k: int|
            0 <= k < disasm_spec(code).len() && ((#[trigger] disasm_spec(code)[k]).position <= i
                < disasm_spec(code)[k].position + instr_width(
                code,
                disasm_spec(code)[k].position,
            )),
{
    lemma_disasm_covers(code, 0, i);
    let d0 = disasm_from(code, 0);
    let k = choose|k: int|
        0 <= k < d0.len() && ((#[trigger] d0[k]).position <= i < d0[k].position + instr_width(
            code,
            d0[k].position,
        ));
    assert(disasm_spec(code)[k] == d0[k]);
    assert(0 <= k < disasm_spec(code).len() && ((#[trigger] disasm_spec(code)[k]).position <= i
        < disasm_spec(code)[k].position + instr_width(code, disasm_spec(code)[k].position)));
}

/// Immediate-data opacity: no instruction is ever decoded at a
/// position inside another instruction's immediate data.
pub proof fn lemma_immediate_opacity(code: Seq<u8>, k1: int, k2: int)
    requires
        0 <= k1 < disasm_spec(code).len(),
        0 <= k2 < disasm_spec(code).len(),
        k1 != k2,
    ensures
        !(disasm_spec(code)[k1].position < disasm_spec(code)[k2].position <= disasm_spec(
            code,
        )[k1].position + avail_imm(code, disasm_spec(code)[k1].position)),
{
    if k1 < k2 {
        lemma_disasm_no_overlap(code, k1, k2);
    } else {
        lemma_disasm_no_overlap(code, k2, k1);
    }
}

} // verus!
