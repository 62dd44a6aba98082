use etheraudit::expression::{tree_eq, OpTree};
use etheraudit::program::Program;

fn build(bytes: &[u8]) -> Program {
    Program::new(bytes.to_vec()).expect("analysis never fails")
}

#[test]
fn query_finds_a_conditional_jump_by_shape() {
    // PUSH1 5; PUSH1 5; EQ; PUSH1 0; JUMPI
    // JUMPI's recorded inputs are [Constant(0), Operation(EQ, ...)].
    let p = build(&[0x60, 0x05, 0x60, 0x05, 0x14, 0x60, 0x00, 0x57]);
    let pattern = OpTree::operation(
        0x57,
        vec![
            OpTree::constant(&[]),
            OpTree::query(String::from("c")),
        ],
    );
    let matches = p.query(&pattern);
    assert_eq!(matches.len(), 1);
    assert_eq!(matches[0].position, 7);
    assert_eq!(matches[0].bindings.len(), 1);
    let (name, bound) = &matches[0].bindings[0];
    assert_eq!(name, "c");
    let eq_tree = OpTree::operation(
        0x14,
        vec![OpTree::constant(&[0x05]), OpTree::constant(&[0x05])],
    );
    assert!(tree_eq(bound, &eq_tree));
}

#[test]
fn repeated_variable_demands_equal_subtrees() {
    let pattern = OpTree::operation(
        0x14,
        vec![
            OpTree::query(String::from("x")),
            OpTree::query(String::from("x")),
        ],
    );
    // EQ over two equal constants: matches
    let p_equal = build(&[0x60, 0x05, 0x60, 0x05, 0x14]);
    let matches = p_equal.query(&pattern);
    assert_eq!(matches.len(), 1);
    assert_eq!(matches[0].position, 4);
    // EQ over two different constants: the second binding of x fails
    let p_diff = build(&[0x60, 0x05, 0x60, 0x06, 0x14]);
    assert_eq!(p_diff.query(&pattern).len(), 0);
}

#[test]
fn query_with_no_match_is_empty() {
    let p = build(&[0x60, 0x05, 0x60, 0x05, 0x01]);
    let pattern = OpTree::operation(
        0x02,
        vec![
            OpTree::query(String::from("a")),
            OpTree::query(String::from("b")),
        ],
    );
    assert_eq!(p.query(&pattern).len(), 0);
}

#[test]
fn constants_in_patterns_match_by_value() {
    let p = build(&[0x60, 0x05, 0x60, 0x05, 0x01]);
    // position 0 and 2 hold Constant(5)
    let pattern = OpTree::constant(&[0x05]);
    let matches = p.query(&pattern);
    assert_eq!(matches.len(), 2);
    assert_eq!(matches[0].position, 0);
    assert_eq!(matches[1].position, 2);
    assert!(matches.iter().all(|m| m.bindings.is_empty()));
}

#[test]
fn dup_duplicates_without_a_new_node() {
    // PUSH1 5; DUP1; ADD  ->  ADD(Constant(5), Constant(5)) at position 3
    let p = build(&[0x60, 0x05, 0x80, 0x01]);
    let pattern = OpTree::operation(
        0x01,
        vec![
            OpTree::query(String::from("x")),
            OpTree::query(String::from("x")),
        ],
    );
    let matches = p.query(&pattern);
    assert_eq!(matches.len(), 1);
    assert_eq!(matches[0].position, 3);
    assert!(tree_eq(&matches[0].bindings[0].1, &OpTree::constant(&[0x05])));
}

#[test]
fn swap_exchanges_stack_slots() {
    // PUSH1 1; PUSH1 2; SWAP1; SUB  ->  SUB(Constant(1), Constant(2)) at 5
    let p = build(&[0x60, 0x01, 0x60, 0x02, 0x90, 0x03]);
    let pattern = OpTree::operation(
        0x03,
        vec![OpTree::constant(&[0x01]), OpTree::constant(&[0x02])],
    );
    let matches = p.query(&pattern);
    assert_eq!(matches.len(), 1);
    assert_eq!(matches[0].position, 5);
}
