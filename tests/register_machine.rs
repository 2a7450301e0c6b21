use bytecode_vm::register_machine::Opcode::{Add, Div, Done, Load, Mul, Sub};
use bytecode_vm::register_machine::{interpret, ProgramError, REGISTER_COUNT};

#[test]
fn lib_ops() {
    // no Done instruction should error
    assert!(interpret(vec![Load(1, 100)]).is_err());
    assert!(interpret(vec![]).is_err());

    // registers are zeroed at initialization
    for reg in 0..REGISTER_COUNT {
        assert_eq!(interpret(vec![Done(reg)]).unwrap(), 0);
    }

    // load a value
    assert_eq!(interpret(vec![Load(0, 2), Done(0)]).unwrap(), 2);

    // addition is commutative 1 of 2
    assert_eq!(
        interpret(vec![
            Load(0, 2),
            Load(1, 3),
            Add(0, 1, 0),
            Done(0)
        ]).unwrap(),
        5
    );

    // addition is commutative 2 of 2
    assert_eq!(
        interpret(vec![
            Load(0, 3),
            Load(1, 2),
            Add(0, 1, 0),
            Done(0)
        ]).unwrap(),
        5
    );

    // addition should not modify memory
    assert_eq!(
        interpret(vec![
            Load(0, 2),
            Load(1, 2),
            Add(0, 1, 0),
            Done(1)
        ]).unwrap(),
        2
    );

    // no other memory should be impacted
    assert_eq!(
        interpret(vec![
            Load(0, 2),
            Load(1, 2),
            Add(0, 1, 0),
            Done(2)
        ]).unwrap(),
        0
    );


    // subtraction is not commutative 1 of 2
    assert_eq!(
        interpret(vec![
            Load(0, 2),
            Load(1, 3),
            Sub(0, 1, 0),
            Done(0)
        ]).unwrap(),
        -1
    );

    // subtraction is commutative 2 of 2
    assert_eq!(
        interpret(vec![
            Load(0, 3),
            Load(1, 2),
            Sub(0, 1, 0),
            Done(0)
        ]).unwrap(),
        1
    );

    // subtraction should not modify memory
    assert_eq!(
        interpret(vec![
            Load(0, 2),
            Load(1, 2),
            Sub(0, 1, 0),
            Done(1)
        ]).unwrap(),
        2
    );

    // no other memory should be impacted
    assert_eq!(
        interpret(vec![
            Load(0, 2),
            Load(1, 2),
            Sub(0, 1, 0),
            Done(2)
        ]).unwrap(),
        0
    );


    // multiplication is commutative 1 of 2
    assert_eq!(
        interpret(vec![
            Load(0, 2),
            Load(1, 3),
            Mul(0, 1, 0),
            Done(0)
        ]).unwrap(),
        6
    );

    // multiplication is commutative 2 of 2
    assert_eq!(
        interpret(vec![
            Load(0, 3),
            Load(1, 2),
            Mul(0, 1, 0),
            Done(0)
        ]).unwrap(),
        6
    );

    // addition should not modify memory
    assert_eq!(
        interpret(vec![
            Load(0, 2),
            Load(1, 2),
            Mul(0, 1, 0),
            Done(1)
        ]).unwrap(),
        2
    );

    // no other memory should be impacted
    assert_eq!(
        interpret(vec![
            Load(0, 2),
            Load(1, 2),
            Mul(0, 1, 0),
            Done(2)
        ]).unwrap(),
        0
    );


    // division is not commutative 1 of 2
    assert_eq!(
        interpret(vec![
            Load(0, 6),
            Load(1, 3),
            Div(0, 1, 0),
            Done(0)
        ]).unwrap(),
        2
    );

    // division is commutative 2 of 2
    assert_eq!(
        interpret(vec![
            Load(0, 3),
            Load(1, 6),
            Div(0, 1, 0),
            Done(0)
        ]).unwrap(),
        0
    );

    // division should not modify memory
    assert_eq!(
        interpret(vec![
            Load(0, 2),
            Load(1, 2),
            Div(0, 1, 0),
            Done(1)
        ]).unwrap(),
        2
    );

    // no other memory should be impacted
    assert_eq!(
        interpret(vec![
            Load(0, 2),
            Load(1, 2),
            Div(0, 1, 0),
            Done(2)
        ]).unwrap(),
        0
    );

    // integer division rounds down 1 of 2
    assert_eq!(
        interpret(vec![
            Load(0, 4),
            Load(1, 3),
            Div(0, 1, 0),
            Done(0)
        ]).unwrap(),
        1
    );

    // integer division rounds down 2 of 2
    assert_eq!(
        interpret(vec![
            Load(0, 3),
            Load(1, 4),
            Div(0, 1, 0),
            Done(0)
        ]).unwrap(),
        0
    );

    // divide zero by anything
    assert_eq!(
        interpret(vec![
            Load(0, 0),
            Load(1, 4),
            Div(0, 1, 0),
            Done(0)
        ]).unwrap(),
        0
    );

    // divide by zero
    assert!(
        interpret(vec![
            Load(0, 1),
            Load(1, 0),
            Div(0, 1, 0),
            Done(0)
        ]).is_err()
    );
}

#[test]
fn register_errors() {
    assert_eq!(interpret(vec![Done(REGISTER_COUNT + 1)]), Err(ProgramError::RegisterOutOfRange));
    assert_eq!(interpret(vec![Load(REGISTER_COUNT, 1), Done(0)]), Err(ProgramError::RegisterOutOfRange));
    assert_eq!(interpret(vec![Add(0, 16, 0), Done(0)]), Err(ProgramError::RegisterOutOfRange));
    assert_eq!(interpret(vec![Load(0, 1), Div(0, 1, 0), Done(0)]), Err(ProgramError::DivisionByZero));
    assert_eq!(
        interpret(vec![Load(0, i64::MAX), Load(1, 2), Mul(0, 1, 2), Done(2)]),
        Err(ProgramError::Overflow)
    );
    assert_eq!(
        interpret(vec![Load(0, i64::MIN), Load(1, 1), Sub(0, 1, 2), Done(2)]),
        Err(ProgramError::Overflow)
    );
    assert_eq!(interpret(vec![Load(1, 100)]), Err(ProgramError::UnexpectedTermination));
    assert_eq!(interpret(vec![]), Err(ProgramError::UnexpectedTermination));
}

#[test]
fn register_done_stops_the_program() {
    assert_eq!(interpret(vec![Load(3, 9), Done(3), Done(REGISTER_COUNT + 5)]), Ok(9));
    assert_eq!(interpret(vec![Load(0, -9), Load(1, 2), Div(0, 1, 4), Done(4)]), Ok(-4));
}
