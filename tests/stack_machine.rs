use bytecode_vm::stack_machine::Opcode::{Add, Div, Done, Mul, Push, Sub};
use bytecode_vm::stack_machine::{interpret, ProgramError};

#[test]
fn stack_inc() {
    assert_eq!(interpret(vec![Push(2)]).unwrap(), 2);
    assert_eq!(interpret(vec![Push(3), Push(2), Sub, Done]).unwrap(), 1);
    assert_eq!(interpret(vec![Push(2), Push(3), Mul]).unwrap(), 6);
    assert_eq!(interpret(vec![Push(7), Push(1), Div, Done]).unwrap(), 7);
    assert_eq!(
        interpret(vec![Push(7), Push(5), Add, Push(3), Add, Push(3), Div, Done]).unwrap(),
        5
    );
    assert_eq!(interpret(vec![Push(0), Push(2), Div, Done]).unwrap(), 0);
    assert!(interpret(vec![Push(2), Push(0), Div, Done]).is_err());
    assert!(interpret(vec![Push(2), Sub]).is_err());
}

#[test]
fn stack_errors() {
    assert_eq!(interpret(vec![]), Err(ProgramError::StackUnderflow));
    assert_eq!(interpret(vec![Add]), Err(ProgramError::StackUnderflow));
    assert_eq!(interpret(vec![Push(1), Mul]), Err(ProgramError::StackUnderflow));
    assert_eq!(interpret(vec![Push(0), Div]), Err(ProgramError::DivisionByZero));
    assert_eq!(interpret(vec![Push(2), Push(0), Div]), Err(ProgramError::DivisionByZero));
    assert_eq!(interpret(vec![Push(i64::MAX), Push(1), Add]), Err(ProgramError::Overflow));
    assert_eq!(interpret(vec![Push(i64::MIN), Push(-1), Div]), Err(ProgramError::Overflow));
    assert_eq!(interpret(vec![Push(i64::MIN), Push(2), Mul]), Err(ProgramError::Overflow));
}

#[test]
fn stack_division_rounds_toward_zero() {
    assert_eq!(interpret(vec![Push(-7), Push(2), Div]), Ok(-3));
    assert_eq!(interpret(vec![Push(7), Push(-2), Div]), Ok(-3));
    assert_eq!(interpret(vec![Push(-7), Push(-2), Div]), Ok(3));
}

#[test]
fn stack_done_stops_the_program() {
    assert_eq!(interpret(vec![Push(4), Done, Add]), Ok(4));
    assert_eq!(interpret(vec![Push(4), Push(5), Done]), Ok(5));
}
