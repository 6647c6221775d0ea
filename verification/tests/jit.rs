use motor::binary::FunctionBody;
use motor::jit::CompileError;
use motor::jit::NATIVE_RET;
use motor::jit::compile;
use motor::opcode::OPC_RETURN;

fn body_of(code: Vec<u8>) -> FunctionBody {
    FunctionBody { locals: vec![], code }
}

#[test]
fn compile_single_return() {
    let buf = compile(&body_of(vec![OPC_RETURN])).unwrap();
    assert_eq!(buf, vec![NATIVE_RET]);
}

#[test]
fn compile_empty_body() {
    let buf = compile(&body_of(vec![])).unwrap();
    assert!(buf.is_empty());
}

#[test]
fn compile_several_returns() {
    let buf = compile(&body_of(vec![OPC_RETURN, OPC_RETURN, OPC_RETURN])).unwrap();
    assert_eq!(buf, vec![NATIVE_RET, NATIVE_RET, NATIVE_RET]);
}

#[test]
fn compile_unsupported_single_byte() {
    let r = compile(&body_of(vec![0x00]));
    assert_eq!(r, Err(CompileError::UnsupportedOpcode { opcode: 0x00, offset: 0 }));
}

#[test]
fn compile_reports_first_unsupported_offset() {
    let r = compile(&body_of(vec![OPC_RETURN, 0x41, OPC_RETURN]));
    assert_eq!(r, Err(CompileError::UnsupportedOpcode { opcode: 0x41, offset: 1 }));
}
