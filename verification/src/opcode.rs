//! The opcodes the engine recognizes.

use vstd::prelude::*;

verus! {

/// Return from the current function.
pub const OPC_RETURN: u8 = 0x0f;

} // verus!
