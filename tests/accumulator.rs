use bytecode_vm::accumulator::interpret;
use bytecode_vm::accumulator::Opcode::{Dec, Done, Inc};

#[test]
fn lib_inc() {
    assert_eq!(
        interpret(vec![Inc]), // note, no `Done`
        Some(1)
    );
}

#[test]
fn lib_dec() {
    assert_eq!(interpret(vec![Dec, Done]), Some(-1));
}

#[test]
fn lib_long_program() {
    assert_eq!(interpret(vec![Inc, Dec, Inc]), Some(1));
}

#[test]
fn lib_instructions_past_done() {
    assert_eq!(interpret(vec![Inc, Dec, Inc, Done, Inc]), Some(1));
}

#[test]
fn accumulator_empty_program_is_zero() {
    assert_eq!(interpret(vec![]), Some(0));
    assert_eq!(interpret(vec![Done, Inc, Inc]), Some(0));
}
