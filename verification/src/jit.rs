//! The compiler from a function body's opcode stream to native machine
//! code bytes.
//!
//! Each recognized opcode translates, independently of its neighbours,
//! into a fixed run of x86-64 instruction bytes appended to the output
//! buffer; the first unrecognized byte aborts compilation with a typed
//! error carrying the byte and its offset. Making the buffer executable
//! and calling into it is left to the embedding program.

use vstd::prelude::*;
use crate::binary::FunctionBody;
use crate::opcode::OPC_RETURN;

verus! {

/// The x86-64 near-return instruction.
pub const NATIVE_RET: u8 = 0xc3;

/// Why a function body failed to compile.
#[derive(Debug, Clone, Copy, PartialEq, Eq)]
pub enum CompileError {
    /// A byte of the opcode stream is not a recognized opcode; carries
    /// the byte and its offset within the stream.
    UnsupportedOpcode { opcode: u8, offset: usize },
}

/// The fixed translation of one opcode into native instruction bytes, or
/// nothing for an unrecognized byte.
pub open spec fn translate_opcode(b: u8) -> Option<Seq<u8>> {
    if b == OPC_RETURN {
        Some(seq![NATIVE_RET])
    } else {
        None
    }
}

/// The offset of the first unrecognized opcode at or after `i`, if any.
pub open spec fn first_unsupported_from(code: Seq<u8>, i: int) -> Option<int>
    decreases code.len() - i,
{
    if i < 0 || i >= code.len() {
        None
    } else if translate_opcode(code[i]) is None {
        Some(i)
    } else {
        first_unsupported_from(code, i + 1)
    }
}

/// The concatenated translations of the opcodes at and after `i`;
/// meaningful when all of them are recognized.
pub open spec fn translate_from(code: Seq<u8>, i: int) -> Seq<u8>
    decreases code.len() - i,
{
    if i < 0 || i >= code.len() {
        seq![]
    } else {
        (match translate_opcode(code[i]) {
            Some(t) => t,
            None => seq![],
        }) + translate_from(code, i + 1)
    }
}

/// Compile a function body's opcode stream into a buffer of native
/// instruction bytes. Succeeds exactly when every byte of the stream is a
/// recognized opcode; otherwise reports the first unrecognized byte and
/// its offset.
#[verifier::loop_isolation(false)]
pub fn compile(body: &FunctionBody) -> (r: Result<Vec<u8>, CompileError>)
    ensures
        (match r {
            Ok(buf) => first_unsupported_from(body@.code, 0) is None && buf@ == translate_from(
                body@.code,
                0,
            ),
            Err(CompileError::UnsupportedOpcode { opcode, offset }) => first_unsupported_from(
                body@.code,
                0,
            ) == Some(offset as int) && opcode == body@.code[offset as int],
        }),
        r is Ok <==> first_unsupported_from(body@.code, 0) is None,
{
    let n = body.code.len();
    let mut out: Vec<u8> = Vec::new();
    let mut i: usize = 0;
    proof {
        assert(out@ + translate_from(body@.code, 0) =~= translate_from(body@.code, 0));
    }
    while i < n
        invariant
            i <= n,
            n == body@.code.len(),
            first_unsupported_from(body@.code, 0) == first_unsupported_from(body@.code, i as int),
            out@ + translate_from(body@.code, i as int) == translate_from(body@.code, 0),
        decreases n - i,
    {
        let b = body.code[i];
        if b == OPC_RETURN {
            proof {
                assert((out@ + seq![NATIVE_RET]) + translate_from(body@.code, i + 1) =~= out@ + (
                seq![NATIVE_RET] + translate_from(body@.code, i + 1)));
                assert(out@ + seq![NATIVE_RET] =~= out@.push(NATIVE_RET));
            }
            out.push(NATIVE_RET);
        } else {
            return Err(CompileError::UnsupportedOpcode { opcode: b, offset: i });
        }
        i = i + 1;
    }
    proof {
        assert(out@ + translate_from(body@.code, n as int) =~= out@);
    }
    Ok(out)
}

} // verus!
