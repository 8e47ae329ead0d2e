//! On-chain instruction shapes for the state-compression program.

use vstd::prelude::*;

verus! {

/// The operations the compression program accepts.
pub enum InstructionType {
    /// Create a tree of the given shape.
    InitTree { max_depth: u32, max_buffer_size: u32 },
    /// Replace a leaf in place, authenticated against the current root.
    UpdateAccount { root: [u8; 32], previous_account: [u8; 32], new_account: [u8; 32], index: u32 },
    /// Check a leaf against the current root.
    VerifyAccount { root: [u8; 32], account: [u8; 32], index: u32 },
    /// Append a leaf.
    AppendAccount { account: [u8; 32] },
}

/// A full instruction: the program, the accounts it touches, the
/// operation.
pub struct Instruction {
    pub program_id: [u8; 32],
    pub accounts: Vec<[u8; 32]>,
    pub data: InstructionType,
}

impl Instruction {
    pub fn new(program_id: [u8; 32], accounts: Vec<[u8; 32]>, data: InstructionType) -> (r:
        Instruction)
        ensures
            r.program_id == program_id,
            r.accounts == accounts,
            r.data == data,
    {
        Instruction { program_id, accounts, data }
    }
}

} // verus!
