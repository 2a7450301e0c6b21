use vstd::prelude::*;

use crate::arithmetic::{fits_i64, quotient_toward_zero};

verus! {

/// The number of registers of the machine.
pub const REGISTER_COUNT: usize = 16;

/// An instruction of the register machine. Arithmetic instructions name two
/// source registers and then a destination register.
#[derive(Clone, Copy, Debug, PartialEq, Eq)]
pub enum Opcode {
    Load(usize, i64),
    Add(usize, usize, usize),
    Sub(usize, usize, usize),
    Div(usize, usize, usize),
    Mul(usize, usize, usize),
    Done(usize),
}

/// Why a program of the register machine stopped without a result.
#[derive(Clone, Copy, Debug, PartialEq, Eq)]
pub enum ProgramError {
    /// A division had zero as its divisor.
    DivisionByZero,
    /// The program ended without a `Done` instruction.
    UnexpectedTermination,
    /// An instruction named a register the machine does not have.
    RegisterOutOfRange,
    /// A result did not fit in an `i64`.
    Overflow,
}

/// The register machine: a program and its registers.
pub struct VM {
    program: Vec<Opcode>,
    registers: [i64; REGISTER_COUNT],
}

/// The register is one the machine has.
pub open spec fn valid_register(r: usize) -> bool {
    r < REGISTER_COUNT
}

/// The value of an arithmetic instruction on the values of its two sources.
pub open spec fn arithmetic(op: Opcode, x: int, y: int) -> int {
    match op {
        Opcode::Add(..) => x + y,
        Opcode::Sub(..) => x - y,
        Opcode::Mul(..) => x * y,
        Opcode::Div(..) => quotient_toward_zero(x, y),
        _ => 0,
    }
}

/// The registers after one instruction other than `Done`, or the error it
/// stops with.
pub open spec fn step(regs: Seq<i64>, op: Opcode) -> Result<Seq<i64>, ProgramError> {
    match op {
        Opcode::Load(d, v) => if valid_register(d) {
            Ok(regs.update(d as int, v))
        } else {
            Err(ProgramError::RegisterOutOfRange)
        },
        Opcode::Add(s0, s1, d) | Opcode::Sub(s0, s1, d) | Opcode::Div(s0, s1, d) | Opcode::Mul(
            s0,
            s1,
            d,
        ) => if !(valid_register(s0) && valid_register(s1) && valid_register(d)) {
            Err(ProgramError::RegisterOutOfRange)
        } else if op is Div && regs[s1 as int] == 0 {
            Err(ProgramError::DivisionByZero)
        } else if !fits_i64(arithmetic(op, regs[s0 as int] as int, regs[s1 as int] as int)) {
            Err(ProgramError::Overflow)
        } else {
            Ok(
                regs.update(
                    d as int,
                    arithmetic(op, regs[s0 as int] as int, regs[s1 as int] as int) as i64,
                ),
            )
        },
        Opcode::Done(_) => Ok(regs),
    }
}

/// All registers hold zero.
pub open spec fn zeroed() -> Seq<i64> {
    Seq::new(REGISTER_COUNT as nat, |i: int| 0i64)
}

/// The registers after the first `k` instructions, from zeroed registers, or
/// the first error. `Done` leaves the registers as they are.
pub open spec fn run(program: Seq<Opcode>, k: int) -> Result<Seq<i64>, ProgramError>
    decreases k,
{
    if k <= 0 {
        Ok(zeroed())
    } else {
        match run(program, k - 1) {
            Ok(regs) => step(regs, program[k - 1]),
            Err(e) => Err(e),
        }
    }
}

/// The index of the first `Done` at or after `i`, or the program's length.
pub open spec fn halt_from(program: Seq<Opcode>, i: int) -> int
    decreases program.len() - i,
{
    if i < 0 || i >= program.len() {
        program.len() as int
    } else if program[i] is Done {
        i
    } else {
        halt_from(program, i + 1)
    }
}

/// The index of the first `Done`, or the program's length when it has none.
pub open spec fn halt_index(program: Seq<Opcode>) -> int {
    halt_from(program, 0)
}

/// The halting index lies between `i` and the program's length.
pub proof fn lemma_halt_from_bounds(program: Seq<Opcode>, i: int)
    requires
        0 <= i <= program.len(),
    ensures
        i <= halt_from(program, i) <= program.len(),
    decreases program.len() - i,
{
    if i < program.len() && !(program[i] is Done) {
        lemma_halt_from_bounds(program, i + 1);
    }
}

/// What a program returns: the register named by its first `Done`, once the
/// instructions before it have run.
pub open spec fn outcome(program: Seq<Opcode>) -> Result<i64, ProgramError> {
    let h = halt_index(program);
    match run(program, h) {
        Err(e) => Err(e),
        Ok(regs) => if h >= program.len() {
            Err(ProgramError::UnexpectedTermination)
        } else if valid_register(program[h]->Done_0) {
            Ok(regs[program[h]->Done_0 as int])
        } else {
            Err(ProgramError::RegisterOutOfRange)
        },
    }
}

/// Once a run has failed, later instructions do not change the error.
pub proof fn lemma_run_error_persists(program: Seq<Opcode>, k: int, m: int)
    requires
        0 <= k <= m,
        run(program, k) is Err,
    ensures
        run(program, m) == run(program, k),
    decreases m - k,
{
    if k < m {
        lemma_run_error_persists(program, k, m - 1);
    }
}

/// Runs the program from zeroed registers and returns the register named by
/// its first `Done`.
pub fn interpret(program: Vec<Opcode>) -> (r: Result<i64, ProgramError>)
    ensures
        r == outcome(program@),
{
    let ghost p = program@;
    let mut vm = VM { program, registers: [0; REGISTER_COUNT] };
    proof {
        assert(vm.registers@ =~= zeroed());
        lemma_halt_from_bounds(p, 0);
    }
    let n = vm.program.len();
    let mut i: usize = 0;
    while i < n
        invariant
            vm.program@ == p,
            program@ == p,
            n == p.len(),
            i <= n,
            halt_from(p, i as int) == halt_index(p),
            i <= halt_index(p),
            run(p, i as int) == Ok::<Seq<i64>, ProgramError>(vm.registers@),
        decreases n - i,
    {
        let op = vm.program[i];
        proof {
            if !(op is Done) {
                assert(halt_from(p, i as int) == halt_from(p, i + 1));
                lemma_halt_from_bounds(p, i + 1);
            }
        }
        match op {
            Opcode::Load(d, value) => {
                if d >= REGISTER_COUNT {
                    proof {
                        lemma_run_error_persists(p, i + 1, halt_index(p));
                    }
                    return Err(ProgramError::RegisterOutOfRange);
                }
                vm.registers[d] = value;
            },
            Opcode::Add(s0, s1, d) | Opcode::Sub(s0, s1, d) | Opcode::Div(s0, s1, d)
            | Opcode::Mul(s0, s1, d) => {
                if s0 >= REGISTER_COUNT || s1 >= REGISTER_COUNT || d >= REGISTER_COUNT {
                    proof {
                        lemma_run_error_persists(p, i + 1, halt_index(p));
                    }
                    return Err(ProgramError::RegisterOutOfRange);
                }
                let x = vm.registers[s0];
                let y = vm.registers[s1];
                let value = match op {
                    Opcode::Add(..) => x.checked_add(y),
                    Opcode::Sub(..) => x.checked_sub(y),
                    Opcode::Mul(..) => x.checked_mul(y),
                    _ => {
                        if y == 0 {
                            proof {
                                lemma_run_error_persists(p, i + 1, halt_index(p));
                            }
                            return Err(ProgramError::DivisionByZero);
                        }
                        x.checked_div(y)
                    },
                };
                match value {
                    Some(v) => {
                        vm.registers[d] = v;
                    },
                    None => {
                        proof {
                            lemma_run_error_persists(p, i + 1, halt_index(p));
                        }
                        return Err(ProgramError::Overflow);
                    },
                }
            },
            Opcode::Done(source) => {
                assert(halt_index(p) == i);
                if source >= REGISTER_COUNT {
                    return Err(ProgramError::RegisterOutOfRange);
                }
                return Ok(vm.registers[source]);
            },
        }
        i = i + 1;
    }
    Err(ProgramError::UnexpectedTermination)
}

} // verus!
