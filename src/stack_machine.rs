use vstd::prelude::*;

use crate::arithmetic::{fits_i64, quotient_toward_zero};

verus! {

/// An instruction of the stack machine.
#[derive(Clone, Copy, Debug, PartialEq, Eq)]
pub enum Opcode {
    Push(i64),
    Add,
    Sub,
    Div,
    Mul,
    Done,
}

/// Why a program of the stack machine stopped without a result.
#[derive(Clone, Copy, Debug, PartialEq, Eq)]
pub enum ProgramError {
    /// An instruction needed more operands than the stack held, or the
    /// program ended with an empty stack.
    StackUnderflow,
    /// A division had zero as its divisor.
    DivisionByZero,
    /// A result did not fit in an `i64`.
    Overflow,
}

/// The stack machine: a program and its operand stack.
pub struct VM {
    program: Vec<Opcode>,
    stack: Vec<i64>,
}

/// The index of the first `Done` at or after `i`, or the program's length.
pub open spec fn halt_from(program: Seq<Opcode>, i: int) -> int
    decreases program.len() - i,
{
    if i < 0 || i >= program.len() {
        program.len() as int
    } else if program[i] is Done {
        i
    } else {
        halt_from(program, i + 1)
    }
}

/// The number of instructions that run: everything before the first `Done`.
pub open spec fn halt_index(program: Seq<Opcode>) -> int {
    halt_from(program, 0)
}

/// The halting index lies between `i` and the program's length.
pub proof fn lemma_halt_from_bounds(program: Seq<Opcode>, i: int)
    requires
        0 <= i <= program.len(),
    ensures
        i <= halt_from(program, i) <= program.len(),
    decreases program.len() - i,
{
    if i < program.len() && !(program[i] is Done) {
        lemma_halt_from_bounds(program, i + 1);
    }
}

/// `b op a` for the arithmetic instructions, where `a` is the top of the stack
/// and `b` the value below it.
pub open spec fn arithmetic(op: Opcode, b: int, a: int) -> int {
    match op {
        Opcode::Add => b + a,
        Opcode::Sub => b - a,
        Opcode::Mul => b * a,
        Opcode::Div => quotient_toward_zero(b, a),
        _ => 0,
    }
}

/// The stack after one instruction, or the error it stops with. `Div` checks
/// its divisor before it looks for a second operand.
pub open spec fn step(stack: Seq<i64>, op: Opcode) -> Result<Seq<i64>, ProgramError> {
    let n = stack.len();
    match op {
        Opcode::Push(v) => Ok(stack.push(v)),
        Opcode::Done => Ok(stack),
        _ => if n == 0 {
            Err(ProgramError::StackUnderflow)
        } else if op is Div && stack[n - 1] == 0 {
            Err(ProgramError::DivisionByZero)
        } else if n == 1 {
            Err(ProgramError::StackUnderflow)
        } else if !fits_i64(arithmetic(op, stack[n - 2] as int, stack[n - 1] as int)) {
            Err(ProgramError::Overflow)
        } else {
            Ok(
                stack.take(n - 2).push(
                    arithmetic(op, stack[n - 2] as int, stack[n - 1] as int) as i64,
                ),
            )
        },
    }
}

/// The stack after the first `k` instructions, from an empty stack, or the
/// first error.
pub open spec fn run(program: Seq<Opcode>, k: int) -> Result<Seq<i64>, ProgramError>
    decreases k,
{
    if k <= 0 {
        Ok(Seq::empty())
    } else {
        match run(program, k - 1) {
            Ok(stack) => step(stack, program[k - 1]),
            Err(e) => Err(e),
        }
    }
}

/// What a program returns: the top of the stack once it halts.
pub open spec fn outcome(program: Seq<Opcode>) -> Result<i64, ProgramError> {
    match run(program, halt_index(program)) {
        Ok(stack) => if stack.len() > 0 {
            Ok(stack.last())
        } else {
            Err(ProgramError::StackUnderflow)
        },
        Err(e) => Err(e),
    }
}

/// Once a run has failed, later instructions do not change the error.
pub proof fn lemma_run_error_persists(program: Seq<Opcode>, k: int, m: int)
    requires
        0 <= k <= m,
        run(program, k) is Err,
    ensures
        run(program, m) == run(program, k),
    decreases m - k,
{
    if k < m {
        lemma_run_error_persists(program, k, m - 1);
    }
}

/// Applies one instruction other than `Done` to the stack.
fn apply(stack: &mut Vec<i64>, op: Opcode) -> (r: Option<ProgramError>)
    requires
        !(op is Done),
    ensures
        match step(old(stack)@, op) {
            Ok(s) => r is None && final(stack)@ == s,
            Err(e) => r == Some(e),
        },
{
    if let Opcode::Push(v) = op {
        stack.push(v);
        return None;
    }
    let a = match stack.pop() {
        Some(a) => a,
        None => {
            return Some(ProgramError::StackUnderflow);
        },
    };
    if let Opcode::Div = op {
        if a == 0 {
            return Some(ProgramError::DivisionByZero);
        }
    }
    let b = match stack.pop() {
        Some(b) => b,
        None => {
            return Some(ProgramError::StackUnderflow);
        },
    };
    let value = match op {
        Opcode::Add => b.checked_add(a),
        Opcode::Sub => b.checked_sub(a),
        Opcode::Mul => b.checked_mul(a),
        _ => b.checked_div(a),
    };
    match value {
        Some(v) => {
            stack.push(v);
            proof {
                assert(final(stack)@ =~= old(stack)@.take(old(stack)@.len() - 2).push(v));
            }
            None
        },
        None => Some(ProgramError::Overflow),
    }
}

/// Runs the program on an empty stack until its first `Done` or its end and
/// returns the value on top of the stack.
pub fn interpret(program: Vec<Opcode>) -> (r: Result<i64, ProgramError>)
    ensures
        r == outcome(program@),
{
    let ghost p = program@;
    let mut vm = VM { program, stack: Vec::new() };
    let n = vm.program.len();
    let mut i: usize = 0;
    proof {
        lemma_halt_from_bounds(p, 0);
    }
    while i < n
        invariant
            vm.program@ == p,
            program@ == p,
            n == p.len(),
            i <= n,
            halt_from(p, i as int) == halt_index(p),
            i <= halt_index(p),
            run(p, i as int) == Ok::<Seq<i64>, ProgramError>(vm.stack@),
        ensures
            i == halt_index(p),
            run(p, i as int) == Ok::<Seq<i64>, ProgramError>(vm.stack@),
        decreases n - i,
    {
        let op = vm.program[i];
        if let Opcode::Done = op {
            assert(halt_index(p) == i);
            break;
        }
        proof {
            assert(halt_from(p, i as int) == halt_from(p, i + 1));
            lemma_halt_from_bounds(p, i + 1);
        }
        match apply(&mut vm.stack, op) {
            Some(err) => {
                proof {
                    lemma_run_error_persists(p, i + 1, halt_index(p));
                }
                return Err(err);
            },
            None => {},
        }
        i = i + 1;
    }
    match vm.stack.pop() {
        Some(res) => Ok(res),
        None => Err(ProgramError::StackUnderflow),
    }
}

} // verus!
