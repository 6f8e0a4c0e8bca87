use chronos::bytecode::{Chunk, CompiledProgram, Constant, OpCode};
use chronos::vm_error::VMError;
use chronos::vm_control::{next_step, Step, STEP_LIMIT};

#[test]
fn test_emit_returns_index_and_records_line() {
    let mut c = Chunk::new("f".to_string());
    assert_eq!(c.len(), 0);
    assert_eq!(c.emit(OpCode::Nop, 3), 0);
    assert_eq!(c.emit(OpCode::Return, 4), 1);
    assert_eq!(c.len(), 2);
    assert_eq!(c.lines, vec![3, 4]);
}

#[test]
fn test_patch_jump_sets_target() {
    let mut c = Chunk::new("f".to_string());
    let j = c.emit(OpCode::JumpIfFalse(0), 1);
    c.emit(OpCode::Nop, 1);
    c.patch_jump(j, 2);
    assert!(matches!(c.code[0], OpCode::JumpIfFalse(2)));
    let k = c.emit(OpCode::Jump(0), 1);
    c.patch_jump(k, 0);
    assert!(matches!(c.code[2], OpCode::Jump(0)));
    let t = c.emit(OpCode::JumpIfTrue(0), 1);
    c.patch_jump(t, 7);
    assert!(matches!(c.code[3], OpCode::JumpIfTrue(7)));
}

#[test]
fn test_with_params() {
    let c = Chunk::with_params("g".to_string(), vec!["a".to_string(), "b".to_string()]);
    assert_eq!(c.name, "g");
    assert_eq!(c.params, vec!["a".to_string(), "b".to_string()]);
    assert!(c.code.is_empty());
}

#[test]
fn test_find_chunk_returns_first_of_name() {
    let mut p = CompiledProgram::new();
    assert!(p.entry_point.is_none());
    let mut first = Chunk::new("main".to_string());
    first.emit(OpCode::Nop, 1);
    p.add_chunk(first);
    p.add_chunk(Chunk::new("main".to_string()));
    p.add_chunk(Chunk::new("other".to_string()));
    assert_eq!(p.chunks.len(), 3);
    assert_eq!(p.find_chunk("main").unwrap().code.len(), 1);
    assert_eq!(p.find_chunk("other").unwrap().name, "other");
    assert!(p.find_chunk("missing").is_none());
}

#[test]
fn test_constants_and_errors_exist() {
    let c = Constant::Float64 { literal: "3.14".to_string() };
    assert!(matches!(c, Constant::Float64 { ref literal } if literal == "3.14"));
    let e = VMError::ChunkNotFound { name: "main".to_string() };
    assert!(matches!(e, VMError::ChunkNotFound { ref name } if name == "main"));
    assert!(matches!(VMError::InfiniteLoop, VMError::InfiniteLoop));
}

#[test]
fn entry_chunk_prefers_the_main_contract() {
    let mut p = CompiledProgram::new();
    p.add_chunk(Chunk::new("main".to_string()));
    assert_eq!(p.entry_chunk().map(|c| c.name.clone()), Some("main".to_string()));
    p.add_chunk(Chunk::new("Main::main".to_string()));
    assert_eq!(p.entry_chunk().map(|c| c.name.clone()), Some("Main::main".to_string()));
    p.entry_point = Some("start".to_string());
    assert!(p.entry_chunk().is_none());
    assert_eq!(p.entry_name_of(), "start");
}

#[test]
fn the_run_stops_past_the_step_limit() {
    assert!(matches!(next_step(true, 1, 5, Some(3), 0), (Step::Finish, 5)));
    assert!(matches!(next_step(false, 0, 5, Some(3), 0), (Step::Finish, 5)));
    assert!(matches!(next_step(false, 1, 5, Some(3), 0), (Step::Run, 6)));
    assert!(matches!(next_step(false, 1, 5, Some(3), 3), (Step::LeaveFrame, 6)));
    assert!(matches!(next_step(false, 1, 5, None, 0), (Step::LeaveFrame, 6)));
    assert!(matches!(next_step(false, 1, STEP_LIMIT, Some(3), 0), (Step::TooLong, _)));
}
