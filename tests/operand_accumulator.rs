use bytecode_vm::operand_accumulator::interpret;
use bytecode_vm::operand_accumulator::Opcode::{Add, Dec, Done, Inc, Sub};

#[test]
fn inc() {
    assert_eq!(
        interpret(vec![Inc]), // note, no `Done`
        Some(1)
    );
}

#[test]
fn dec() {
    assert_eq!(interpret(vec![Dec, Done]), Some(-1));
}

#[test]
fn long_program() {
    assert_eq!(interpret(vec![Inc, Dec, Inc]), Some(1));
}

#[test]
fn instructions_past_done() {
    assert_eq!(interpret(vec![Inc, Dec, Inc, Done, Inc]), Some(1));
}

#[test]
fn add_instruction() {
    assert_eq!(interpret(vec![Inc, Dec, Add(12), Done]), Some(12));
}

#[test]
fn subtract_instruction() {
    assert_eq!(interpret(vec![Inc, Add(12), Sub(2), Done]), Some(11));
}

#[test]
fn operand_overflow_gives_none() {
    assert_eq!(interpret(vec![Add(i64::MAX), Inc]), None);
    assert_eq!(interpret(vec![Dec, Sub(i64::MAX), Dec]), None);
    assert_eq!(interpret(vec![Dec, Sub(i64::MAX)]), Some(i64::MIN));
}

#[test]
fn operand_overflow_after_done_is_ignored() {
    assert_eq!(interpret(vec![Add(i64::MAX), Done, Inc]), Some(i64::MAX));
}
