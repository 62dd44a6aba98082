//! The opcode table: a total mapping from a one-byte instruction code
//! to its metadata.  Unassigned codes behave as an invalid
//! terminating instruction.

use vstd::prelude::*;

verus! {

pub const STOP: u8 = 0x00;

pub const ADD: u8 = 0x01;

pub const MUL: u8 = 0x02;

pub const EQ: u8 = 0x14;

pub const ISZERO: u8 = 0x15;

pub const POP: u8 = 0x50;

pub const MLOAD: u8 = 0x51;

pub const MSTORE: u8 = 0x52;

pub const JUMP: u8 = 0x56;

pub const JUMPI: u8 = 0x57;

pub const JUMPDEST: u8 = 0x5b;

pub const PUSH1: u8 = 0x60;

pub const PUSH32: u8 = 0x7f;

pub const DUP1: u8 = 0x80;

pub const DUP16: u8 = 0x8f;

pub const SWAP1: u8 = 0x90;

pub const SWAP16: u8 = 0x9f;

pub const RETURN: u8 = 0xf3;

pub const REVERT: u8 = 0xfd;

pub const INVALID: u8 = 0xfe;

pub const SELFDESTRUCT: u8 = 0xff;

/// Metadata for one instruction code.
#[derive(Clone, Copy, PartialEq, Eq, Structural)]
pub struct OpCodeInfo {
    pub stack_in: u8,
    pub stack_out: u8,
    pub gas: u32,
    pub immediate_len: u8,
    pub is_terminator: bool,
    pub is_jump: bool,
    pub is_conditional_jump: bool,
}

/// Push instructions carry 1 to 32 bytes of trailing immediate data.
pub open spec fn is_push_spec(code: u8) -> bool {
    PUSH1 <= code && code <= PUSH32
}

pub fn is_push(code: u8) -> (r: bool)
    ensures
        r == is_push_spec(code),
{
    PUSH1 <= code && code <= PUSH32
}

pub open spec fn is_dup_spec(code: u8) -> bool {
    DUP1 <= code && code <= DUP16
}

pub fn is_dup(code: u8) -> (r: bool)
    ensures
        r == is_dup_spec(code),
{
    DUP1 <= code && code <= DUP16
}

pub open spec fn is_swap_spec(code: u8) -> bool {
    SWAP1 <= code && code <= SWAP16
}

pub fn is_swap(code: u8) -> (r: bool)
    ensures
        r == is_swap_spec(code),
{
    SWAP1 <= code && code <= SWAP16
}

/// The codes the instruction set assigns; all others are invalid.
pub open spec fn is_assigned_spec(code: u8) -> bool {
    ||| code <= 0x0b
    ||| 0x10 <= code && code <= 0x1d
    ||| code == 0x20
    ||| 0x30 <= code && code <= 0x45
    ||| 0x50 <= code && code <= 0x5b
    ||| 0x60 <= code && code <= 0xa4
    ||| 0xf0 <= code && code <= 0xf5
    ||| code == 0xfa
    ||| 0xfd <= code
}

pub fn is_assigned(code: u8) -> (r: bool)
    ensures
        r == is_assigned_spec(code),
{
    code <= 0x0b || (0x10 <= code && code <= 0x1d) || code == 0x20 || (0x30 <= code && code
        <= 0x45) || (0x50 <= code && code <= 0x5b) || (0x60 <= code && code <= 0xa4) || (0xf0
        <= code && code <= 0xf5) || code == 0xfa || 0xfd <= code
}

/// Number of trailing immediate-data bytes the instruction carries.
pub open spec fn imm_len_spec(code: u8) -> u8 {
    if is_push_spec(code) {
        (code - 0x5f) as u8
    } else {
        0
    }
}

pub fn imm_len(code: u8) -> (r: u8)
    ensures
        r == imm_len_spec(code),
{
    if is_push(code) {
        code - 0x5f
    } else {
        0
    }
}

/// Terminators end a basic block: stop, jumps, return, revert,
/// self-destruct, and every invalid or unassigned code.
pub open spec fn is_terminator_spec(code: u8) -> bool {
    ||| code == STOP
    ||| code == JUMP
    ||| code == JUMPI
    ||| code == RETURN
    ||| code == REVERT
    ||| code == INVALID
    ||| code == SELFDESTRUCT
    ||| !is_assigned_spec(code)
}

pub fn is_terminator(code: u8) -> (r: bool)
    ensures
        r == is_terminator_spec(code),
{
    code == STOP || code == JUMP || code == JUMPI || code == RETURN || code == REVERT || code
        == INVALID || code == SELFDESTRUCT || !is_assigned(code)
}

pub open spec fn is_jump_spec(code: u8) -> bool {
    code == JUMP || code == JUMPI
}

pub fn is_jump(code: u8) -> (r: bool)
    ensures
        r == is_jump_spec(code),
{
    code == JUMP || code == JUMPI
}

pub open spec fn is_conditional_jump_spec(code: u8) -> bool {
    code == JUMPI
}

pub fn is_conditional_jump(code: u8) -> (r: bool)
    ensures
        r == is_conditional_jump_spec(code),
{
    code == JUMPI
}

/// Pure stack-shuffling codes (push, pop, dup, swap), used by
/// presentation layers to filter noise.
pub open spec fn is_stack_manip_only_spec(code: u8) -> bool {
    is_push_spec(code) || is_dup_spec(code) || is_swap_spec(code) || code == POP
}

pub fn is_stack_manip_only(code: u8) -> (r: bool)
    ensures
        r == is_stack_manip_only_spec(code),
{
    is_push(code) || is_dup(code) || is_swap(code) || code == POP
}

/// The full metadata record for a code.
pub open spec fn op_info_spec(code: u8) -> OpCodeInfo {
    OpCodeInfo {
        stack_in: stack_in_spec(code),
        stack_out: stack_out_spec(code),
        gas: base_gas_spec(code),
        immediate_len: imm_len_spec(code),
        is_terminator: is_terminator_spec(code),
        is_jump: is_jump_spec(code),
        is_conditional_jump: is_conditional_jump_spec(code),
    }
}

/// Total lookup over all 256 byte values.
pub fn lookup(code: u8) -> (r: OpCodeInfo)
    ensures
        r == op_info_spec(code),
{
    OpCodeInfo {
        stack_in: stack_in(code),
        stack_out: stack_out(code),
        gas: base_gas(code),
        immediate_len: imm_len(code),
        is_terminator: is_terminator(code),
        is_jump: is_jump(code),
        is_conditional_jump: is_conditional_jump(code),
    }
}

pub open spec fn stack_in_spec(code: u8) -> u8 {
        if 0x01 <= code && code <= 0x07 {
            2
        } else if 0x08 <= code && code <= 0x09 {
            3
        } else if 0x0a <= code && code <= 0x0b {
            2
        } else if 0x10 <= code && code <= 0x14 {
            2
        } else if code == 0x15 {
            1
        } else if 0x16 <= code && code <= 0x18 {
            2
        } else if code == 0x19 {
            1
        } else if 0x1a <= code && code <= 0x1d {
            2
        } else if code == 0x20 {
            2
        } else if code == 0x31 {
            1
        } else if code == 0x35 {
            1
        } else if code == 0x37 {
            3
        } else if code == 0x39 {
            3
        } else if code == 0x3b {
            1
        } else if code == 0x3c {
            4
        } else if code == 0x3e {
            3
        } else if 0x3f <= code && code <= 0x40 {
            1
        } else if 0x50 <= code && code <= 0x51 {
            1
        } else if 0x52 <= code && code <= 0x53 {
            2
        } else if code == 0x54 {
            1
        } else if code == 0x55 {
            2
        } else if code == 0x56 {
            1
        } else if code == 0x57 {
            2
        } else if code == 0x80 {
            1
        } else if code == 0x81 {
            2
        } else if code == 0x82 {
            3
        } else if code == 0x83 {
            4
        } else if code == 0x84 {
            5
        } else if code == 0x85 {
            6
        } else if code == 0x86 {
            7
        } else if code == 0x87 {
            8
        } else if code == 0x88 {
            9
        } else if code == 0x89 {
            10
        } else if code == 0x8a {
            11
        } else if code == 0x8b {
            12
        } else if code == 0x8c {
            13
        } else if code == 0x8d {
            14
        } else if code == 0x8e {
            15
        } else if code == 0x8f {
            16
        } else if code == 0x90 {
            2
        } else if code == 0x91 {
            3
        } else if code == 0x92 {
            4
        } else if code == 0x93 {
            5
        } else if code == 0x94 {
            6
        } else if code == 0x95 {
            7
        } else if code == 0x96 {
            8
        } else if code == 0x97 {
            9
        } else if code == 0x98 {
            10
        } else if code == 0x99 {
            11
        } else if code == 0x9a {
            12
        } else if code == 0x9b {
            13
        } else if code == 0x9c {
            14
        } else if code == 0x9d {
            15
        } else if code == 0x9e {
            16
        } else if code == 0x9f {
            17
        } else if code == 0xa0 {
            2
        } else if code == 0xa1 {
            3
        } else if code == 0xa2 {
            4
        } else if code == 0xa3 {
            5
        } else if code == 0xa4 {
            6
        } else if code == 0xf0 {
            3
        } else if 0xf1 <= code && code <= 0xf2 {
            7
        } else if code == 0xf3 {
            2
        } else if code == 0xf4 {
            6
        } else if code == 0xf5 {
            4
        } else if code == 0xfa {
            6
        } else if code == 0xfd {
            2
        } else if code == 0xff {
            1
        } else {
            0
        }
}

pub fn stack_in(code: u8) -> (r: u8)
    ensures
        r == stack_in_spec(code),
{
        if 0x01 <= code && code <= 0x07 {
            2
        } else if 0x08 <= code && code <= 0x09 {
            3
        } else if 0x0a <= code && code <= 0x0b {
            2
        } else if 0x10 <= code && code <= 0x14 {
            2
        } else if code == 0x15 {
            1
        } else if 0x16 <= code && code <= 0x18 {
            2
        } else if code == 0x19 {
            1
        } else if 0x1a <= code && code <= 0x1d {
            2
        } else if code == 0x20 {
            2
        } else if code == 0x31 {
            1
        } else if code == 0x35 {
            1
        } else if code == 0x37 {
            3
        } else if code == 0x39 {
            3
        } else if code == 0x3b {
            1
        } else if code == 0x3c {
            4
        } else if code == 0x3e {
            3
        } else if 0x3f <= code && code <= 0x40 {
            1
        } else if 0x50 <= code && code <= 0x51 {
            1
        } else if 0x52 <= code && code <= 0x53 {
            2
        } else if code == 0x54 {
            1
        } else if code == 0x55 {
            2
        } else if code == 0x56 {
            1
        } else if code == 0x57 {
            2
        } else if code == 0x80 {
            1
        } else if code == 0x81 {
            2
        } else if code == 0x82 {
            3
        } else if code == 0x83 {
            4
        } else if code == 0x84 {
            5
        } else if code == 0x85 {
            6
        } else if code == 0x86 {
            7
        } else if code == 0x87 {
            8
        } else if code == 0x88 {
            9
        } else if code == 0x89 {
            10
        } else if code == 0x8a {
            11
        } else if code == 0x8b {
            12
        } else if code == 0x8c {
            13
        } else if code == 0x8d {
            14
        } else if code == 0x8e {
            15
        } else if code == 0x8f {
            16
        } else if code == 0x90 {
            2
        } else if code == 0x91 {
            3
        } else if code == 0x92 {
            4
        } else if code == 0x93 {
            5
        } else if code == 0x94 {
            6
        } else if code == 0x95 {
            7
        } else if code == 0x96 {
            8
        } else if code == 0x97 {
            9
        } else if code == 0x98 {
            10
        } else if code == 0x99 {
            11
        } else if code == 0x9a {
            12
        } else if code == 0x9b {
            13
        } else if code == 0x9c {
            14
        } else if code == 0x9d {
            15
        } else if code == 0x9e {
            16
        } else if code == 0x9f {
            17
        } else if code == 0xa0 {
            2
        } else if code == 0xa1 {
            3
        } else if code == 0xa2 {
            4
        } else if code == 0xa3 {
            5
        } else if code == 0xa4 {
            6
        } else if code == 0xf0 {
            3
        } else if 0xf1 <= code && code <= 0xf2 {
            7
        } else if code == 0xf3 {
            2
        } else if code == 0xf4 {
            6
        } else if code == 0xf5 {
            4
        } else if code == 0xfa {
            6
        } else if code == 0xfd {
            2
        } else if code == 0xff {
            1
        } else {
            0
        }
}

pub open spec fn stack_out_spec(code: u8) -> u8 {
        if 0x01 <= code && code <= 0x0b {
            1
        } else if 0x10 <= code && code <= 0x1d {
            1
        } else if code == 0x20 {
            1
        } else if 0x30 <= code && code <= 0x36 {
            1
        } else if code == 0x38 {
            1
        } else if 0x3a <= code && code <= 0x3b {
            1
        } else if code == 0x3d {
            1
        } else if 0x3f <= code && code <= 0x45 {
            1
        } else if code == 0x51 {
            1
        } else if code == 0x54 {
            1
        } else if 0x58 <= code && code <= 0x5a {
            1
        } else if 0x60 <= code && code <= 0x7f {
            1
        } else if code == 0x80 {
            2
        } else if code == 0x81 {
            3
        } else if code == 0x82 {
            4
        } else if code == 0x83 {
            5
        } else if code == 0x84 {
            6
        } else if code == 0x85 {
            7
        } else if code == 0x86 {
            8
        } else if code == 0x87 {
            9
        } else if code == 0x88 {
            10
        } else if code == 0x89 {
            11
        } else if code == 0x8a {
            12
        } else if code == 0x8b {
            13
        } else if code == 0x8c {
            14
        } else if code == 0x8d {
            15
        } else if code == 0x8e {
            16
        } else if code == 0x8f {
            17
        } else if code == 0x90 {
            2
        } else if code == 0x91 {
            3
        } else if code == 0x92 {
            4
        } else if code == 0x93 {
            5
        } else if code == 0x94 {
            6
        } else if code == 0x95 {
            7
        } else if code == 0x96 {
            8
        } else if code == 0x97 {
            9
        } else if code == 0x98 {
            10
        } else if code == 0x99 {
            11
        } else if code == 0x9a {
            12
        } else if code == 0x9b {
            13
        } else if code == 0x9c {
            14
        } else if code == 0x9d {
            15
        } else if code == 0x9e {
            16
        } else if code == 0x9f {
            17
        } else if 0xf0 <= code && code <= 0xf2 {
            1
        } else if 0xf4 <= code && code <= 0xf5 {
            1
        } else if code == 0xfa {
            1
        } else {
            0
        }
}

pub fn stack_out(code: u8) -> (r: u8)
    ensures
        r == stack_out_spec(code),
{
        if 0x01 <= code && code <= 0x0b {
            1
        } else if 0x10 <= code && code <= 0x1d {
            1
        } else if code == 0x20 {
            1
        } else if 0x30 <= code && code <= 0x36 {
            1
        } else if code == 0x38 {
            1
        } else if 0x3a <= code && code <= 0x3b {
            1
        } else if code == 0x3d {
            1
        } else if 0x3f <= code && code <= 0x45 {
            1
        } else if code == 0x51 {
            1
        } else if code == 0x54 {
            1
        } else if 0x58 <= code && code <= 0x5a {
            1
        } else if 0x60 <= code && code <= 0x7f {
            1
        } else if code == 0x80 {
            2
        } else if code == 0x81 {
            3
        } else if code == 0x82 {
            4
        } else if code == 0x83 {
            5
        } else if code == 0x84 {
            6
        } else if code == 0x85 {
            7
        } else if code == 0x86 {
            8
        } else if code == 0x87 {
            9
        } else if code == 0x88 {
            10
        } else if code == 0x89 {
            11
        } else if code == 0x8a {
            12
        } else if code == 0x8b {
            13
        } else if code == 0x8c {
            14
        } else if code == 0x8d {
            15
        } else if code == 0x8e {
            16
        } else if code == 0x8f {
            17
        } else if code == 0x90 {
            2
        } else if code == 0x91 {
            3
        } else if code == 0x92 {
            4
        } else if code == 0x93 {
            5
        } else if code == 0x94 {
            6
        } else if code == 0x95 {
            7
        } else if code == 0x96 {
            8
        } else if code == 0x97 {
            9
        } else if code == 0x98 {
            10
        } else if code == 0x99 {
            11
        } else if code == 0x9a {
            12
        } else if code == 0x9b {
            13
        } else if code == 0x9c {
            14
        } else if code == 0x9d {
            15
        } else if code == 0x9e {
            16
        } else if code == 0x9f {
            17
        } else if 0xf0 <= code && code <= 0xf2 {
            1
        } else if 0xf4 <= code && code <= 0xf5 {
            1
        } else if code == 0xfa {
            1
        } else {
            0
        }
}

pub open spec fn base_gas_spec(code: u8) -> u32 {
        if code == 0x01 {
            3
        } else if code == 0x02 {
            5
        } else if code == 0x03 {
            3
        } else if 0x04 <= code && code <= 0x07 {
            5
        } else if 0x08 <= code && code <= 0x09 {
            8
        } else if code == 0x0a {
            10
        } else if code == 0x0b {
            5
        } else if 0x10 <= code && code <= 0x1d {
            3
        } else if code == 0x20 {
            30
        } else if code == 0x30 {
            2
        } else if code == 0x31 {
            400
        } else if 0x32 <= code && code <= 0x34 {
            2
        } else if code == 0x35 {
            3
        } else if code == 0x36 {
            2
        } else if code == 0x37 {
            3
        } else if code == 0x38 {
            2
        } else if code == 0x39 {
            3
        } else if code == 0x3a {
            2
        } else if 0x3b <= code && code <= 0x3c {
            700
        } else if code == 0x3d {
            2
        } else if code == 0x3e {
            3
        } else if code == 0x3f {
            400
        } else if code == 0x40 {
            20
        } else if 0x41 <= code && code <= 0x45 {
            2
        } else if code == 0x50 {
            2
        } else if 0x51 <= code && code <= 0x53 {
            3
        } else if code == 0x54 {
            200
        } else if code == 0x55 {
            5000
        } else if code == 0x56 {
            8
        } else if code == 0x57 {
            10
        } else if 0x58 <= code && code <= 0x5a {
            2
        } else if code == 0x5b {
            1
        } else if 0x60 <= code && code <= 0x9f {
            3
        } else if code == 0xa0 {
            375
        } else if code == 0xa1 {
            750
        } else if code == 0xa2 {
            1125
        } else if code == 0xa3 {
            1500
        } else if code == 0xa4 {
            1875
        } else if code == 0xf0 {
            32000
        } else if 0xf1 <= code && code <= 0xf2 {
            700
        } else if code == 0xf4 {
            700
        } else if code == 0xf5 {
            32000
        } else if code == 0xfa {
            700
        } else if code == 0xff {
            5000
        } else {
            0
        }
}

pub fn base_gas(code: u8) -> (r: u32)
    ensures
        r == base_gas_spec(code),
{
        if code == 0x01 {
            3
        } else if code == 0x02 {
            5
        } else if code == 0x03 {
            3
        } else if 0x04 <= code && code <= 0x07 {
            5
        } else if 0x08 <= code && code <= 0x09 {
            8
        } else if code == 0x0a {
            10
        } else if code == 0x0b {
            5
        } else if 0x10 <= code && code <= 0x1d {
            3
        } else if code == 0x20 {
            30
        } else if code == 0x30 {
            2
        } else if code == 0x31 {
            400
        } else if 0x32 <= code && code <= 0x34 {
            2
        } else if code == 0x35 {
            3
        } else if code == 0x36 {
            2
        } else if code == 0x37 {
            3
        } else if code == 0x38 {
            2
        } else if code == 0x39 {
            3
        } else if code == 0x3a {
            2
        } else if 0x3b <= code && code <= 0x3c {
            700
        } else if code == 0x3d {
            2
        } else if code == 0x3e {
            3
        } else if code == 0x3f {
            400
        } else if code == 0x40 {
            20
        } else if 0x41 <= code && code <= 0x45 {
            2
        } else if code == 0x50 {
            2
        } else if 0x51 <= code && code <= 0x53 {
            3
        } else if code == 0x54 {
            200
        } else if code == 0x55 {
            5000
        } else if code == 0x56 {
            8
        } else if code == 0x57 {
            10
        } else if 0x58 <= code && code <= 0x5a {
            2
        } else if code == 0x5b {
            1
        } else if 0x60 <= code && code <= 0x9f {
            3
        } else if code == 0xa0 {
            375
        } else if code == 0xa1 {
            750
        } else if code == 0xa2 {
            1125
        } else if code == 0xa3 {
            1500
        } else if code == 0xa4 {
            1875
        } else if code == 0xf0 {
            32000
        } else if 0xf1 <= code && code <= 0xf2 {
            700
        } else if code == 0xf4 {
            700
        } else if code == 0xf5 {
            32000
        } else if code == 0xfa {
            700
        } else if code == 0xff {
            5000
        } else {
            0
        }
}

pub open spec fn op_name_spec(code: u8) -> Seq<char> {
    if code == 0x00 {
        "STOP"@
    } else if code == 0x01 {
        "ADD"@
    } else if code == 0x02 {
        "MUL"@
    } else if code == 0x03 {
        "SUB"@
    } else if code == 0x04 {
        "DIV"@
    } else if code == 0x05 {
        "SDIV"@
    } else if code == 0x06 {
        "MOD"@
    } else if code == 0x07 {
        "SMOD"@
    } else if code == 0x08 {
        "ADDMOD"@
    } else if code == 0x09 {
        "MULMOD"@
    } else if code == 0x0a {
        "EXP"@
    } else if code == 0x0b {
        "SIGNEXTEND"@
    } else if code == 0x10 {
        "LT"@
    } else if code == 0x11 {
        "GT"@
    } else if code == 0x12 {
        "SLT"@
    } else if code == 0x13 {
        "SGT"@
    } else if code == 0x14 {
        "EQ"@
    } else if code == 0x15 {
        "ISZERO"@
    } else if code == 0x16 {
        "AND"@
    } else if code == 0x17 {
        "OR"@
    } else if code == 0x18 {
        "XOR"@
    } else if code == 0x19 {
        "NOT"@
    } else if code == 0x1a {
        "BYTE"@
    } else if code == 0x1b {
        "SHL"@
    } else if code == 0x1c {
        "SHR"@
    } else if code == 0x1d {
        "SAR"@
    } else if code == 0x20 {
        "SHA3"@
    } else if code == 0x30 {
        "ADDRESS"@
    } else if code == 0x31 {
        "BALANCE"@
    } else if code == 0x32 {
        "ORIGIN"@
    } else if code == 0x33 {
        "CALLER"@
    } else if code == 0x34 {
        "CALLVALUE"@
    } else if code == 0x35 {
        "CALLDATALOAD"@
    } else if code == 0x36 {
        "CALLDATASIZE"@
    } else if code == 0x37 {
        "CALLDATACOPY"@
    } else if code == 0x38 {
        "CODESIZE"@
    } else if code == 0x39 {
        "CODECOPY"@
    } else if code == 0x3a {
        "GASPRICE"@
    } else if code == 0x3b {
        "EXTCODESIZE"@
    } else if code == 0x3c {
        "EXTCODECOPY"@
    } else if code == 0x3d {
        "RETURNDATASIZE"@
    } else if code == 0x3e {
        "RETURNDATACOPY"@
    } else if code == 0x3f {
        "EXTCODEHASH"@
    } else if code == 0x40 {
        "BLOCKHASH"@
    } else if code == 0x41 {
        "COINBASE"@
    } else if code == 0x42 {
        "TIMESTAMP"@
    } else if code == 0x43 {
        "NUMBER"@
    } else if code == 0x44 {
        "DIFFICULTY"@
    } else if code == 0x45 {
        "GASLIMIT"@
    } else if code == 0x50 {
        "POP"@
    } else if code == 0x51 {
        "MLOAD"@
    } else if code == 0x52 {
        "MSTORE"@
    } else if code == 0x53 {
        "MSTORE8"@
    } else if code == 0x54 {
        "SLOAD"@
    } else if code == 0x55 {
        "SSTORE"@
    } else if code == 0x56 {
        "JUMP"@
    } else if code == 0x57 {
        "JUMPI"@
    } else if code == 0x58 {
        "PC"@
    } else if code == 0x59 {
        "MSIZE"@
    } else if code == 0x5a {
        "GAS"@
    } else if code == 0x5b {
        "JUMPDEST"@
    } else if code == 0x60 {
        "PUSH1"@
    } else if code == 0x61 {
        "PUSH2"@
    } else if code == 0x62 {
        "PUSH3"@
    } else if code == 0x63 {
        "PUSH4"@
    } else if code == 0x64 {
        "PUSH5"@
    } else if code == 0x65 {
        "PUSH6"@
    } else if code == 0x66 {
        "PUSH7"@
    } else if code == 0x67 {
        "PUSH8"@
    } else if code == 0x68 {
        "PUSH9"@
    } else if code == 0x69 {
        "PUSH10"@
    } else if code == 0x6a {
        "PUSH11"@
    } else if code == 0x6b {
        "PUSH12"@
    } else if code == 0x6c {
        "PUSH13"@
    } else if code == 0x6d {
        "PUSH14"@
    } else if code == 0x6e {
        "PUSH15"@
    } else if code == 0x6f {
        "PUSH16"@
    } else if code == 0x70 {
        "PUSH17"@
    } else if code == 0x71 {
        "PUSH18"@
    } else if code == 0x72 {
        "PUSH19"@
    } else if code == 0x73 {
        "PUSH20"@
    } else if code == 0x74 {
        "PUSH21"@
    } else if code == 0x75 {
        "PUSH22"@
    } else if code == 0x76 {
        "PUSH23"@
    } else if code == 0x77 {
        "PUSH24"@
    } else if code == 0x78 {
        "PUSH25"@
    } else if code == 0x79 {
        "PUSH26"@
    } else if code == 0x7a {
        "PUSH27"@
    } else if code == 0x7b {
        "PUSH28"@
    } else if code == 0x7c {
        "PUSH29"@
    } else if code == 0x7d {
        "PUSH30"@
    } else if code == 0x7e {
        "PUSH31"@
    } else if code == 0x7f {
        "PUSH32"@
    } else if code == 0x80 {
        "DUP1"@
    } else if code == 0x81 {
        "DUP2"@
    } else if code == 0x82 {
        "DUP3"@
    } else if code == 0x83 {
        "DUP4"@
    } else if code == 0x84 {
        "DUP5"@
    } else if code == 0x85 {
        "DUP6"@
    } else if code == 0x86 {
        "DUP7"@
    } else if code == 0x87 {
        "DUP8"@
    } else if code == 0x88 {
        "DUP9"@
    } else if code == 0x89 {
        "DUP10"@
    } else if code == 0x8a {
        "DUP11"@
    } else if code == 0x8b {
        "DUP12"@
    } else if code == 0x8c {
        "DUP13"@
    } else if code == 0x8d {
        "DUP14"@
    } else if code == 0x8e {
        "DUP15"@
    } else if code == 0x8f {
        "DUP16"@
    } else if code == 0x90 {
        "SWAP1"@
    } else if code == 0x91 {
        "SWAP2"@
    } else if code == 0x92 {
        "SWAP3"@
    } else if code == 0x93 {
        "SWAP4"@
    } else if code == 0x94 {
        "SWAP5"@
    } else if code == 0x95 {
        "SWAP6"@
    } else if code == 0x96 {
        "SWAP7"@
    } else if code == 0x97 {
        "SWAP8"@
    } else if code == 0x98 {
        "SWAP9"@
    } else if code == 0x99 {
        "SWAP10"@
    } else if code == 0x9a {
        "SWAP11"@
    } else if code == 0x9b {
        "SWAP12"@
    } else if code == 0x9c {
        "SWAP13"@
    } else if code == 0x9d {
        "SWAP14"@
    } else if code == 0x9e {
        "SWAP15"@
    } else if code == 0x9f {
        "SWAP16"@
    } else if code == 0xa0 {
        "LOG0"@
    } else if code == 0xa1 {
        "LOG1"@
    } else if code == 0xa2 {
        "LOG2"@
    } else if code == 0xa3 {
        "LOG3"@
    } else if code == 0xa4 {
        "LOG4"@
    } else if code == 0xf0 {
        "CREATE"@
    } else if code == 0xf1 {
        "CALL"@
    } else if code == 0xf2 {
        "CALLCODE"@
    } else if code == 0xf3 {
        "RETURN"@
    } else if code == 0xf4 {
        "DELEGATECALL"@
    } else if code == 0xf5 {
        "CREATE2"@
    } else if code == 0xfa {
        "STATICCALL"@
    } else if code == 0xfd {
        "REVERT"@
    } else if code == 0xfe {
        "INVALID"@
    } else if code == 0xff {
        "SELFDESTRUCT"@
    } else {
        "INVALID"@
    }
}

pub fn op_name(code: u8) -> (r: &'static str)
    ensures
        r@ == op_name_spec(code),
{
    if code == 0x00 {
        "STOP"
    } else if code == 0x01 {
        "ADD"
    } else if code == 0x02 {
        "MUL"
    } else if code == 0x03 {
        "SUB"
    } else if code == 0x04 {
        "DIV"
    } else if code == 0x05 {
        "SDIV"
    } else if code == 0x06 {
        "MOD"
    } else if code == 0x07 {
        "SMOD"
    } else if code == 0x08 {
        "ADDMOD"
    } else if code == 0x09 {
        "MULMOD"
    } else if code == 0x0a {
        "EXP"
    } else if code == 0x0b {
        "SIGNEXTEND"
    } else if code == 0x10 {
        "LT"
    } else if code == 0x11 {
        "GT"
    } else if code == 0x12 {
        "SLT"
    } else if code == 0x13 {
        "SGT"
    } else if code == 0x14 {
        "EQ"
    } else if code == 0x15 {
        "ISZERO"
    } else if code == 0x16 {
        "AND"
    } else if code == 0x17 {
        "OR"
    } else if code == 0x18 {
        "XOR"
    } else if code == 0x19 {
        "NOT"
    } else if code == 0x1a {
        "BYTE"
    } else if code == 0x1b {
        "SHL"
    } else if code == 0x1c {
        "SHR"
    } else if code == 0x1d {
        "SAR"
    } else if code == 0x20 {
        "SHA3"
    } else if code == 0x30 {
        "ADDRESS"
    } else if code == 0x31 {
        "BALANCE"
    } else if code == 0x32 {
        "ORIGIN"
    } else if code == 0x33 {
        "CALLER"
    } else if code == 0x34 {
        "CALLVALUE"
    } else if code == 0x35 {
        "CALLDATALOAD"
    } else if code == 0x36 {
        "CALLDATASIZE"
    } else if code == 0x37 {
        "CALLDATACOPY"
    } else if code == 0x38 {
        "CODESIZE"
    } else if code == 0x39 {
        "CODECOPY"
    } else if code == 0x3a {
        "GASPRICE"
    } else if code == 0x3b {
        "EXTCODESIZE"
    } else if code == 0x3c {
        "EXTCODECOPY"
    } else if code == 0x3d {
        "RETURNDATASIZE"
    } else if code == 0x3e {
        "RETURNDATACOPY"
    } else if code == 0x3f {
        "EXTCODEHASH"
    } else if code == 0x40 {
        "BLOCKHASH"
    } else if code == 0x41 {
        "COINBASE"
    } else if code == 0x42 {
        "TIMESTAMP"
    } else if code == 0x43 {
        "NUMBER"
    } else if code == 0x44 {
        "DIFFICULTY"
    } else if code == 0x45 {
        "GASLIMIT"
    } else if code == 0x50 {
        "POP"
    } else if code == 0x51 {
        "MLOAD"
    } else if code == 0x52 {
        "MSTORE"
    } else if code == 0x53 {
        "MSTORE8"
    } else if code == 0x54 {
        "SLOAD"
    } else if code == 0x55 {
        "SSTORE"
    } else if code == 0x56 {
        "JUMP"
    } else if code == 0x57 {
        "JUMPI"
    } else if code == 0x58 {
        "PC"
    } else if code == 0x59 {
        "MSIZE"
    } else if code == 0x5a {
        "GAS"
    } else if code == 0x5b {
        "JUMPDEST"
    } else if code == 0x60 {
        "PUSH1"
    } else if code == 0x61 {
        "PUSH2"
    } else if code == 0x62 {
        "PUSH3"
    } else if code == 0x63 {
        "PUSH4"
    } else if code == 0x64 {
        "PUSH5"
    } else if code == 0x65 {
        "PUSH6"
    } else if code == 0x66 {
        "PUSH7"
    } else if code == 0x67 {
        "PUSH8"
    } else if code == 0x68 {
        "PUSH9"
    } else if code == 0x69 {
        "PUSH10"
    } else if code == 0x6a {
        "PUSH11"
    } else if code == 0x6b {
        "PUSH12"
    } else if code == 0x6c {
        "PUSH13"
    } else if code == 0x6d {
        "PUSH14"
    } else if code == 0x6e {
        "PUSH15"
    } else if code == 0x6f {
        "PUSH16"
    } else if code == 0x70 {
        "PUSH17"
    } else if code == 0x71 {
        "PUSH18"
    } else if code == 0x72 {
        "PUSH19"
    } else if code == 0x73 {
        "PUSH20"
    } else if code == 0x74 {
        "PUSH21"
    } else if code == 0x75 {
        "PUSH22"
    } else if code == 0x76 {
        "PUSH23"
    } else if code == 0x77 {
        "PUSH24"
    } else if code == 0x78 {
        "PUSH25"
    } else if code == 0x79 {
        "PUSH26"
    } else if code == 0x7a {
        "PUSH27"
    } else if code == 0x7b {
        "PUSH28"
    } else if code == 0x7c {
        "PUSH29"
    } else if code == 0x7d {
        "PUSH30"
    } else if code == 0x7e {
        "PUSH31"
    } else if code == 0x7f {
        "PUSH32"
    } else if code == 0x80 {
        "DUP1"
    } else if code == 0x81 {
        "DUP2"
    } else if code == 0x82 {
        "DUP3"
    } else if code == 0x83 {
        "DUP4"
    } else if code == 0x84 {
        "DUP5"
    } else if code == 0x85 {
        "DUP6"
    } else if code == 0x86 {
        "DUP7"
    } else if code == 0x87 {
        "DUP8"
    } else if code == 0x88 {
        "DUP9"
    } else if code == 0x89 {
        "DUP10"
    } else if code == 0x8a {
        "DUP11"
    } else if code == 0x8b {
        "DUP12"
    } else if code == 0x8c {
        "DUP13"
    } else if code == 0x8d {
        "DUP14"
    } else if code == 0x8e {
        "DUP15"
    } else if code == 0x8f {
        "DUP16"
    } else if code == 0x90 {
        "SWAP1"
    } else if code == 0x91 {
        "SWAP2"
    } else if code == 0x92 {
        "SWAP3"
    } else if code == 0x93 {
        "SWAP4"
    } else if code == 0x94 {
        "SWAP5"
    } else if code == 0x95 {
        "SWAP6"
    } else if code == 0x96 {
        "SWAP7"
    } else if code == 0x97 {
        "SWAP8"
    } else if code == 0x98 {
        "SWAP9"
    } else if code == 0x99 {
        "SWAP10"
    } else if code == 0x9a {
        "SWAP11"
    } else if code == 0x9b {
        "SWAP12"
    } else if code == 0x9c {
        "SWAP13"
    } else if code == 0x9d {
        "SWAP14"
    } else if code == 0x9e {
        "SWAP15"
    } else if code == 0x9f {
        "SWAP16"
    } else if code == 0xa0 {
        "LOG0"
    } else if code == 0xa1 {
        "LOG1"
    } else if code == 0xa2 {
        "LOG2"
    } else if code == 0xa3 {
        "LOG3"
    } else if code == 0xa4 {
        "LOG4"
    } else if code == 0xf0 {
        "CREATE"
    } else if code == 0xf1 {
        "CALL"
    } else if code == 0xf2 {
        "CALLCODE"
    } else if code == 0xf3 {
        "RETURN"
    } else if code == 0xf4 {
        "DELEGATECALL"
    } else if code == 0xf5 {
        "CREATE2"
    } else if code == 0xfa {
        "STATICCALL"
    } else if code == 0xfd {
        "REVERT"
    } else if code == 0xfe {
        "INVALID"
    } else if code == 0xff {
        "SELFDESTRUCT"
    } else {
        "INVALID"
    }
}


} // verus!
