//! The analyzed program: the byte code together with its instruction
//! map, block map and expression-tree map, built by one run of the
//! pipeline, plus the hex decoding used by drivers to obtain the
//! byte sequence.

use vstd::prelude::*;
use crate::cfg::{Block, BlockV, blocks_view, blocks_spec, build_blocks};
use crate::disassembler::{disasm_spec, disassemble};
use crate::executor::{exec_spec, execute, tree_entries_view};
use crate::expression::{OpTree, OpTreeV, tree_view, tree_wf};
use crate::instruction::{Instruction, InstrV, instrs_view, instr_wf};
use crate::query::{QueryMatch, matches_view, query_spec, run_query};

verus! {

/// The raw input byte sequence.
pub type ByteCode = Vec<u8>;

/// The instructions of the analyzed program: the disassembly with
/// the symbolic executor's operands, results and diagnostics filled
/// in.
pub open spec fn analyzed_instrs(code: Seq<u8>) -> Seq<InstrV> {
    exec_spec(disasm_spec(code)).instrs
}

/// The expression-tree map of the analyzed program.
pub open spec fn analyzed_trees(code: Seq<u8>) -> Seq<(int, OpTreeV)> {
    exec_spec(disasm_spec(code)).trees
}

/// The block map of the analyzed program.
pub open spec fn analyzed_blocks(code: Seq<u8>) -> Seq<BlockV> {
    blocks_spec(analyzed_instrs(code), code.len() as int)
}

/// The one condition that aborts construction: a structural
/// inconsistency in the block partition.  The pipeline in this crate
/// is proved to never produce one, so construction is proved to
/// succeed on every input.
#[derive(Debug)]
pub enum AnalysisError {
    MalformedProgram { position: usize },
}

/// The analyzed program, immutable once built: the byte code, the
/// instruction map (keyed by position, in position order), the block
/// map (in block-start order) and the expression-tree map.
pub struct Program {
    pub byte_code: ByteCode,
    pub instructions: Vec<Instruction>,
    pub blocks: Vec<Block>,
    pub op_trees: Vec<(usize, OpTree)>,
}

impl Program {
    /// The program is exactly the analysis of its own bytes: every
    /// map is a pure function of the input.
    pub open spec fn wf(self) -> bool {
        &&& instrs_view(self.instructions@) == analyzed_instrs(self.byte_code@)
        &&& tree_entries_view(self.op_trees@) == analyzed_trees(self.byte_code@)
        &&& blocks_view(self.blocks@) == analyzed_blocks(self.byte_code@)
        &&& forall|k: int| 0 <= k < self.instructions@.len() ==> instr_wf(
            #[trigger] self.instructions@[k],
        )
        &&& forall|k: int| 0 <= k < self.op_trees@.len() ==> tree_wf(
            (#[trigger] self.op_trees@[k]).1,
        )
    }

    /// Runs the full pipeline: disassembly, symbolic execution, and
    /// block construction with edge resolution and reachability.
    /// Construction is proved to succeed on every byte sequence.
    pub fn new(byte_code: ByteCode) -> (r: Result<Program, AnalysisError>)
        ensures
            r is Ok,
            r->Ok_0.wf(),
            r->Ok_0.byte_code@ == byte_code@,
    {
        let code_len = byte_code.len();
        let instructions = disassemble(&byte_code);
        let (instructions, op_trees) = execute(instructions);
        let blocks = build_blocks(&instructions, code_len);
        Ok(Program { byte_code, instructions, blocks, op_trees })
    }

    /// Matches a caller-constructed pattern over the program's
    /// expression trees, yielding every matching position with its
    /// variable bindings.
    pub fn query(&self, pattern: &OpTree) -> (r: Vec<QueryMatch>)
        requires
            self.wf(),
            tree_wf(*pattern),
        ensures
            matches_view(r@) == query_spec(analyzed_trees(self.byte_code@), tree_view(*pattern)),
    {
        run_query(&self.op_trees, pattern)
    }

    /// The blocks, in block-start order.
    pub fn blocks(&self) -> (r: &Vec<Block>)
        ensures
            r == &self.blocks,
    {
        &self.blocks
    }
}

/// Idempotence: the analysis is a pure function of the input bytes.
/// Two programs built from equal byte sequences have equal
/// instruction, block and expression-tree maps.
pub proof fn lemma_pipeline_idempotent(p1: Program, p2: Program)
    requires
        p1.wf(),
        p2.wf(),
        p1.byte_code@ == p2.byte_code@,
    ensures
        instrs_view(p1.instructions@) == instrs_view(p2.instructions@),
        blocks_view(p1.blocks@) == blocks_view(p2.blocks@),
        tree_entries_view(p1.op_trees@) == tree_entries_view(p2.op_trees@),
{
}

/// The analyzed instructions keep the disassembly's frame: one per
/// decoded instruction, at its decoded position, and positions
/// increase strictly.
pub proof fn lemma_analyzed_positions_increase(code: Seq<u8>, k1: int, k2: int)
    requires
        0 <= k1 < k2 < analyzed_instrs(code).len(),
    ensures
        analyzed_instrs(code)[k1].position < analyzed_instrs(code)[k2].position,
{
    let d = disasm_spec(code);
    crate::executor::lemma_exec_preserves_frame(d, d.len() as int);
    crate::disassembler::lemma_disasm_chain(code, 0);
    crate::disassembler::lemma_disasm_no_overlap(code, k1, k2);
    assert(analyzed_instrs(code)[k1].position == d[k1].position);
    assert(analyzed_instrs(code)[k2].position == d[k2].position);
}

/// Block starts of an analyzed program are pairwise distinct.
pub proof fn lemma_analyzed_starts_distinct(code: Seq<u8>)
    ensures
        forall|q1: int, q2: int|
            0 <= q1 < q2 < crate::cfg::boundaries(analyzed_instrs(code)).len()
                ==> #[trigger] crate::cfg::block_start_pos(analyzed_instrs(code), q1)
                != #[trigger] crate::cfg::block_start_pos(analyzed_instrs(code), q2),
{
    let instrs = analyzed_instrs(code);
    crate::cfg::lemma_boundaries_chain(instrs, 0);
    assert forall|q1: int, q2: int|
        0 <= q1 < q2 < crate::cfg::boundaries(instrs).len() implies #[trigger] crate::cfg::block_start_pos(
        instrs,
        q1,
    ) != #[trigger] crate::cfg::block_start_pos(instrs, q2) by {
        crate::cfg::lemma_boundaries_increasing(instrs, q1, q2);
        lemma_analyzed_positions_increase(
            code,
            crate::cfg::block_from(instrs, q1),
            crate::cfg::block_from(instrs, q2),
        );
    }
}

/// Edge symmetry for an analyzed program: a block's start is listed
/// among another's entries exactly when that other block's exits
/// contain this block's start.
pub proof fn lemma_analyzed_edge_symmetry(code: Seq<u8>, i: int, j: int)
    requires
        0 <= i < crate::cfg::boundaries(analyzed_instrs(code)).len(),
        0 <= j < crate::cfg::boundaries(analyzed_instrs(code)).len(),
    ensures
        crate::cfg::exits_of(analyzed_instrs(code), j).contains(
            crate::cfg::block_start_pos(analyzed_instrs(code), i),
        ) <==> crate::cfg::entries_of(analyzed_instrs(code), i).contains(
            crate::cfg::block_start_pos(analyzed_instrs(code), j),
        ),
{
    let instrs = analyzed_instrs(code);
    lemma_analyzed_starts_distinct(code);
    if crate::cfg::exits_of(instrs, j).contains(crate::cfg::block_start_pos(instrs, i)) {
        crate::cfg::lemma_edge_symmetry_fwd(instrs, i, j);
    }
    if crate::cfg::entries_of(instrs, i).contains(crate::cfg::block_start_pos(instrs, j)) {
        crate::cfg::lemma_edge_symmetry_bwd(instrs, i, j);
    }
}

/// Block partition for an analyzed program: blocks are contiguous in
/// byte space, the first begins at position 0, and every instruction
/// belongs to exactly one block.
pub proof fn lemma_analyzed_block_partition(code: Seq<u8>, k: int)
    requires
        0 <= k < analyzed_instrs(code).len(),
    ensures
        exists|i: int|
            0 <= i < crate::cfg::boundaries(analyzed_instrs(code)).len()
                && #[trigger] crate::cfg::block_from(analyzed_instrs(code), i) <= k
                < crate::cfg::block_to(analyzed_instrs(code), i),
        forall|i1: int, i2: int|
            (0 <= i1 < crate::cfg::boundaries(analyzed_instrs(code)).len() && 0 <= i2
                < crate::cfg::boundaries(analyzed_instrs(code)).len()
                && #[trigger] crate::cfg::block_from(analyzed_instrs(code), i1) <= k
                < crate::cfg::block_to(analyzed_instrs(code), i1)
                && #[trigger] crate::cfg::block_from(analyzed_instrs(code), i2) <= k
                < crate::cfg::block_to(analyzed_instrs(code), i2)) ==> i1 == i2,
        crate::cfg::block_start_pos(analyzed_instrs(code), 0) == 0,
{
    let instrs = analyzed_instrs(code);
    crate::cfg::lemma_block_partition(instrs, k);
    crate::cfg::lemma_boundaries_chain(instrs, 0);
    let d = disasm_spec(code);
    crate::executor::lemma_exec_preserves_frame(d, d.len() as int);
    crate::disassembler::lemma_disasm_chain(code, 0);
    assert(crate::cfg::block_from(instrs, 0) == 0);
    assert(instrs[0].position == d[0].position);
}

/// Reachability for an analyzed program, in full: a block is
/// reachable exactly when it contains position 0 or some reachable
/// block has a resolved edge to its start.
pub proof fn lemma_analyzed_reachability(code: Seq<u8>, i: int)
    requires
        0 <= i < crate::cfg::boundaries(analyzed_instrs(code)).len(),
    ensures
        crate::cfg::reach_of(analyzed_instrs(code))[i] <==> (i == 0 || exists|j: int|
            0 <= j < crate::cfg::boundaries(analyzed_instrs(code)).len() && crate::cfg::reach_of(
                analyzed_instrs(code),
            )[j] && #[trigger] crate::cfg::exits_of(analyzed_instrs(code), j).contains(
                crate::cfg::block_start_pos(analyzed_instrs(code), i),
            )),
{
    crate::cfg::lemma_reachability_fixpoint(analyzed_instrs(code), i);
}

/// A hexadecimal digit.
pub open spec fn is_hex_digit(c: char) -> bool {
    ('0' <= c && c <= '9') || ('a' <= c && c <= 'f') || ('A' <= c && c <= 'F')
}

/// Its value.
pub open spec fn hex_val(c: char) -> int {
    if '0' <= c && c <= '9' {
        c as int - '0' as int
    } else if 'a' <= c && c <= 'f' {
        c as int - 'a' as int + 10
    } else {
        c as int - 'A' as int + 10
    }
}

/// The bytes denoted by a hex text: one byte per digit pair.
pub open spec fn hex_bytes(s: Seq<char>) -> Seq<u8>
    decreases s.len(),
{
    if s.len() < 2 {
        Seq::empty()
    } else {
        seq![(hex_val(s[0]) * 16 + hex_val(s[1])) as u8] + hex_bytes(s.skip(2))
    }
}

/// One hex digit to its value.
fn hex_digit(c: char) -> (r: u8)
    requires
        is_hex_digit(c),
    ensures
        r as int == hex_val(c),
{
    let v = c as u32;
    if v >= 0x61 {
        (v - 0x61 + 10) as u8
    } else if v >= 0x41 {
        (v - 0x41 + 10) as u8
    } else {
        (v - 0x30) as u8
    }
}

/// Decodes a hexadecimal text into the byte sequence it denotes.
/// The text must be well formed: an even number of hex digits.
pub fn parse_byte_code(s: &str) -> (r: ByteCode)
    requires
        s@.len() % 2 == 0,
        forall|i: int| 0 <= i < s@.len() ==> is_hex_digit(s@[i]),
    ensures
        r@ == hex_bytes(s@),
{
    let n = s.unicode_len();
    let mut r: Vec<u8> = Vec::new();
    let mut i: usize = 0;
    proof {
        assert(s@.skip(0) =~= s@);
    }
    while i < n
        invariant
            0 <= i <= n,
            i % 2 == 0,
            n == s@.len(),
            n % 2 == 0,
            forall|j: int| 0 <= j < s@.len() ==> is_hex_digit(s@[j]),
            r@ + hex_bytes(s@.skip(i as int)) =~= hex_bytes(s@),
        decreases n - i,
    {
        let hi = hex_digit(s.get_char(i));
        let lo = hex_digit(s.get_char(i + 1));
        let ghost rest = s@.skip(i as int);
        proof {
            assert(rest.len() >= 2);
            assert(rest[0] == s@[i as int]);
            assert(rest[1] == s@[i + 1]);
            assert(rest.skip(2) =~= s@.skip(i + 2));
            assert(0 <= hex_val(s@[i as int]) < 16);
            assert(0 <= hex_val(s@[i + 1]) < 16);
        }
        r.push(hi * 16 + lo);
        proof {
            assert(r@ + hex_bytes(s@.skip(i + 2)) =~= hex_bytes(s@));
        }
        i += 2;
    }
    proof {
        assert(hex_bytes(s@.skip(n as int)) =~= Seq::<u8>::empty());
        assert(r@ =~= hex_bytes(s@));
    }
    r
}

} // verus!
