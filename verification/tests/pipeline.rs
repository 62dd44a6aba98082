use etheraudit::cfg::Block;
use etheraudit::expression::{tree_eq, OpTree};
use etheraudit::op_codes;
use etheraudit::program::{parse_byte_code, Program};

fn build(bytes: &[u8]) -> Program {
    Program::new(bytes.to_vec()).expect("analysis never fails")
}

fn block_at<'a>(p: &'a Program, start: usize) -> &'a Block {
    p.blocks()
        .iter()
        .find(|b| b.start == start)
        .expect("block present")
}

#[test]
fn disassembly_tiles_the_stream() {
    // PUSH1 0x10; ADD; PUSH2 0xAABB; STOP
    let p = build(&[0x60, 0x10, 0x01, 0x61, 0xAA, 0xBB, 0x00]);
    let positions: Vec<usize> = p.instructions.iter().map(|i| i.position).collect();
    assert_eq!(positions, vec![0, 2, 3, 6]);
    // widths: 2 + 1 + 3 + 1 == 7, exactly the input length
    let mut covered = 0;
    for ins in &p.instructions {
        assert_eq!(ins.position, covered);
        let imm = ins.immediate_data.as_ref().map(|d| d.len()).unwrap_or(0);
        covered += 1 + imm;
    }
    assert_eq!(covered, 7);
}

#[test]
fn immediate_data_is_never_rescanned() {
    // PUSH2 carries 0x5b 0x5b: neither byte may decode as JUMPDEST
    let p = build(&[0x61, 0x5b, 0x5b, 0x00]);
    let positions: Vec<usize> = p.instructions.iter().map(|i| i.position).collect();
    assert_eq!(positions, vec![0, 3]);
    assert!(positions.iter().all(|&q| q != 1 && q != 2));
}

#[test]
fn truncated_immediate_is_flagged_and_kept() {
    // PUSH2 with only one byte left
    let p = build(&[0x61, 0xAA]);
    assert_eq!(p.instructions.len(), 1);
    let ins = &p.instructions[0];
    assert!(ins.truncated);
    assert_eq!(ins.immediate_data.as_ref().unwrap().as_slice(), &[0xAA]);
}

#[test]
fn empty_input_builds_an_empty_program() {
    let p = build(&[]);
    assert_eq!(p.instructions.len(), 0);
    assert_eq!(p.blocks().len(), 0);
    assert_eq!(p.op_trees.len(), 0);
}

#[test]
fn blocks_partition_the_positions() {
    // PUSH1 4; JUMP; STOP; JUMPDEST; STOP; JUMPDEST; STOP
    let p = build(&[0x60, 0x04, 0x56, 0x00, 0x5b, 0x00, 0x5b, 0x00]);
    let spans: Vec<(usize, usize)> = p.blocks().iter().map(|b| (b.start, b.end)).collect();
    assert_eq!(spans, vec![(0, 3), (3, 4), (4, 6), (6, 8)]);
    // every instruction position falls in exactly one block
    for ins in &p.instructions {
        let owners = p
            .blocks()
            .iter()
            .filter(|b| b.start <= ins.position && ins.position < b.end)
            .count();
        assert_eq!(owners, 1);
    }
}

#[test]
fn edges_are_symmetric() {
    let p = build(&[0x60, 0x04, 0x56, 0x00, 0x5b, 0x00, 0x5b, 0x00]);
    for a in p.blocks() {
        for b in p.blocks() {
            let fwd = a.exits.contains(&b.start);
            let bwd = b.entries.contains(&a.start);
            assert_eq!(fwd, bwd);
        }
    }
    assert_eq!(block_at(&p, 0).exits, vec![4]);
    assert_eq!(block_at(&p, 4).entries, vec![0]);
}

#[test]
fn reachability_follows_resolved_edges() {
    let p = build(&[0x60, 0x04, 0x56, 0x00, 0x5b, 0x00, 0x5b, 0x00]);
    assert!(block_at(&p, 0).reachable);
    assert!(block_at(&p, 4).reachable);
    // dead code is retained but unreachable
    assert!(!block_at(&p, 3).reachable);
    assert!(!block_at(&p, 6).reachable);
    assert!(block_at(&p, 3).entries.is_empty());
    assert!(block_at(&p, 6).entries.is_empty());
}

#[test]
fn constant_jump_resolves_to_static_edge() {
    // PUSH1 0x10; JUMP; thirteen STOPs; JUMPDEST at 0x10; STOP
    let mut bytes = vec![0x60, 0x10, 0x56];
    bytes.extend(std::iter::repeat(0x00).take(13));
    bytes.push(0x5b);
    bytes.push(0x00);
    let p = build(&bytes);
    let b0 = block_at(&p, 0);
    assert!(b0.exits.contains(&0x10));
    assert!(!b0.dynamic_jump);
    assert!(block_at(&p, 0x10).reachable);
}

#[test]
fn unresolved_jump_is_flagged_dynamic() {
    // ADD; JUMP: the jump target is an operation, not a literal
    let p = build(&[0x01, 0x56]);
    let b0 = block_at(&p, 0);
    assert!(b0.dynamic_jump);
    assert!(b0.exits.is_empty());
}

#[test]
fn conditional_jump_keeps_its_fallthrough() {
    // PUSH1 1; PUSH1 7; JUMPI; STOP; JUMPDEST at 7; STOP
    let p = build(&[0x60, 0x01, 0x60, 0x07, 0x57, 0x00, 0x00, 0x5b, 0x00]);
    let b0 = block_at(&p, 0);
    assert!(b0.exits.contains(&5), "false branch falls through");
    assert!(b0.exits.contains(&7), "taken branch is resolved");
    assert!(!b0.dynamic_jump);
}

#[test]
fn stack_underflow_synthesizes_placeholders() {
    let p = build(&[0x01]);
    let ins = &p.instructions[0];
    assert!(ins.stack_underflow);
    assert_eq!(ins.inputs.len(), 2);
    let zero = OpTree::constant(&[]);
    assert!(tree_eq(&ins.inputs[0], &zero));
    assert!(tree_eq(&ins.inputs[1], &zero));
}

#[test]
fn gas_is_summed_per_block() {
    // PUSH1 1; PUSH1 2; ADD  ->  3 + 3 + 3
    let p = build(&[0x60, 0x01, 0x60, 0x02, 0x01]);
    assert_eq!(block_at(&p, 0).gas_price, 9);
}

#[test]
fn pipeline_is_idempotent() {
    let bytes = vec![0x60, 0x04, 0x56, 0x00, 0x5b, 0x60, 0x05, 0x60, 0x05, 0x14, 0x00];
    let p1 = build(&bytes);
    let p2 = build(&bytes);
    let v1: Vec<(usize, usize, bool, bool, u64)> = p1
        .blocks()
        .iter()
        .map(|b| (b.start, b.end, b.reachable, b.dynamic_jump, b.gas_price))
        .collect();
    let v2: Vec<(usize, usize, bool, bool, u64)> = p2
        .blocks()
        .iter()
        .map(|b| (b.start, b.end, b.reachable, b.dynamic_jump, b.gas_price))
        .collect();
    assert_eq!(v1, v2);
    assert_eq!(p1.op_trees.len(), p2.op_trees.len());
    for (a, b) in p1.op_trees.iter().zip(p2.op_trees.iter()) {
        assert_eq!(a.0, b.0);
        assert!(tree_eq(&a.1, &b.1));
    }
    assert_eq!(p1.instructions.len(), p2.instructions.len());
}

#[test]
fn parse_byte_code_decodes_hex_pairs() {
    let bytes = parse_byte_code("600401");
    assert_eq!(bytes, vec![0x60, 0x04, 0x01]);
    let upper = parse_byte_code("AAbb0F");
    assert_eq!(upper, vec![0xAA, 0xBB, 0x0F]);
    assert_eq!(parse_byte_code(""), Vec::<u8>::new());
}

#[test]
fn opcode_table_is_total_and_classifies() {
    let jumpi = op_codes::lookup(0x57);
    assert_eq!(jumpi.stack_in, 2);
    assert_eq!(jumpi.stack_out, 0);
    assert!(jumpi.is_terminator);
    assert!(jumpi.is_jump);
    assert!(jumpi.is_conditional_jump);
    let push3 = op_codes::lookup(0x62);
    assert_eq!(push3.immediate_len, 3);
    // unassigned codes are invalid terminators
    let bad = op_codes::lookup(0x0c);
    assert!(bad.is_terminator);
    assert_eq!(bad.immediate_len, 0);
    assert_eq!(op_codes::op_name(0x01), "ADD");
    assert_eq!(op_codes::op_name(0x7f), "PUSH32");
    assert_eq!(op_codes::op_name(0x0c), "INVALID");
    assert!(op_codes::is_stack_manip_only(0x60));
    assert!(op_codes::is_stack_manip_only(0x50));
    assert!(!op_codes::is_stack_manip_only(0x01));
}

#[test]
fn leading_zeros_do_not_change_a_constant() {
    let a = OpTree::constant(&[0x00, 0x00, 0x10]);
    let b = OpTree::constant(&[0x10]);
    assert!(tree_eq(&a, &b));
    let c = OpTree::constant(&[0x11]);
    assert!(!tree_eq(&a, &c));
}

#[test]
fn jump_to_non_jumpdest_is_dynamic() {
    // PUSH1 3; JUMP; STOP — the target is a constant but not a JUMPDEST
    let p = build(&[0x60, 0x03, 0x56, 0x00]);
    let b0 = block_at(&p, 0);
    assert!(b0.dynamic_jump);
    assert!(b0.exits.is_empty());
}

#[test]
fn oversized_constant_target_is_dynamic() {
    // PUSH32 of 32 0xff bytes, then JUMP: the constant exceeds any position
    let mut bytes = vec![0x7f];
    bytes.extend(std::iter::repeat(0xff).take(32));
    bytes.push(0x56);
    let p = build(&bytes);
    let b0 = block_at(&p, 0);
    assert!(b0.dynamic_jump);
    assert!(b0.exits.is_empty());
}

#[test]
fn op_names_cover_indexed_families() {
    assert_eq!(op_codes::op_name(0x80), "DUP1");
    assert_eq!(op_codes::op_name(0x8f), "DUP16");
    assert_eq!(op_codes::op_name(0x90), "SWAP1");
    assert_eq!(op_codes::op_name(0xa2), "LOG2");
    assert_eq!(op_codes::op_name(0x5b), "JUMPDEST");
    assert_eq!(op_codes::op_name(0xfd), "REVERT");
}

#[test]
fn push_value_is_big_endian() {
    // PUSH2 0x0102 pushes the constant 0x0102 == [0x01, 0x02]
    let p = build(&[0x61, 0x01, 0x02]);
    let pattern = OpTree::constant(&[0x01, 0x02]);
    let matches = p.query(&pattern);
    assert_eq!(matches.len(), 1);
    assert_eq!(matches[0].position, 0);
}

#[test]
fn gap_codes_are_invalid_terminators() {
    // 0x5c..0x5f sit between JUMPDEST and PUSH1 and are unassigned
    for code in 0x5c..0x60u8 {
        let info = op_codes::lookup(code);
        assert!(info.is_terminator);
        assert_eq!(info.immediate_len, 0);
        assert_eq!(op_codes::op_name(code), "INVALID");
    }
    // an unassigned byte ends its block; nothing falls through it
    let p = build(&[0x5c, 0x00]);
    let spans: Vec<(usize, usize)> = p.blocks().iter().map(|b| (b.start, b.end)).collect();
    assert_eq!(spans, vec![(0, 1), (1, 2)]);
    let b0 = block_at(&p, 0);
    assert!(b0.reachable);
    assert!(b0.exits.is_empty());
    assert!(!block_at(&p, 1).reachable);
}
