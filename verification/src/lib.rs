//! Static analyzer for smart-contract bytecode.
//!
//! Given a raw byte sequence, the library disassembles it into
//! variable-length instructions, reconstructs the control-flow graph of
//! basic blocks, runs a symbolic abstract interpretation that builds an
//! expression tree for every value produced, and answers structural
//! pattern queries over those trees.

pub mod expression;
pub mod op_codes;
pub mod instruction;
pub mod disassembler;
pub mod executor;
pub mod cfg;
pub mod query;
pub mod program;
