use vstd::prelude::*;

verus! {

/// An instruction of the accumulator machine with immediate operands.
#[derive(Clone, Copy, Debug, PartialEq, Eq)]
pub enum Opcode {
    Inc,
    Dec,
    Add(i64),
    Sub(i64),
    Done,
}

/// The accumulator machine with immediate operands: a program and the one
/// value it updates.
pub struct VM {
    program: Vec<Opcode>,
    accumulate: i64,
}

/// How much an instruction changes the accumulator.
pub open spec fn delta(op: Opcode) -> int {
    match op {
        Opcode::Inc => 1,
        Opcode::Dec => -1,
        Opcode::Add(v) => v as int,
        Opcode::Sub(v) => -(v as int),
        Opcode::Done => 0,
    }
}

/// The index of the first `Done` at or after `i`, or the program's length.
pub open spec fn halt_from(program: Seq<Opcode>, i: int) -> int
    decreases program.len() - i,
{
    if i < 0 || i >= program.len() {
        program.len() as int
    } else if program[i] is Done {
        i
    } else {
        halt_from(program, i + 1)
    }
}

/// The number of instructions that run: everything before the first `Done`.
pub open spec fn halt_index(program: Seq<Opcode>) -> int {
    halt_from(program, 0)
}

/// The halting index lies between `i` and the program's length.
pub proof fn lemma_halt_from_bounds(program: Seq<Opcode>, i: int)
    requires
        0 <= i <= program.len(),
    ensures
        i <= halt_from(program, i) <= program.len(),
    decreases program.len() - i,
{
    if i < program.len() && !(program[i] is Done) {
        lemma_halt_from_bounds(program, i + 1);
    }
}

/// The accumulator, as an unbounded integer, after the first `n` instructions.
pub open spec fn accumulated(program: Seq<Opcode>, n: int) -> int
    decreases n,
{
    if n <= 0 {
        0
    } else {
        accumulated(program, n - 1) + delta(program[n - 1])
    }
}

/// Every value the accumulator takes during the first `n` instructions fits in an `i64`.
pub open spec fn stays_in_range(program: Seq<Opcode>, n: int) -> bool {
    forall|k: int|
        0 <= k <= n ==> i64::MIN <= #[trigger] accumulated(program, k) <= i64::MAX
}

/// Runs the program from an accumulator of zero until its first `Done` or its end.
/// Returns the final accumulator, or `None` when a step would leave the `i64` range.
pub fn interpret(program: Vec<Opcode>) -> (r: Option<i64>)
    ensures
        r == (if stays_in_range(program@, halt_index(program@)) {
            Some(accumulated(program@, halt_index(program@)) as i64)
        } else {
            None
        }),
{
    let ghost p = program@;
    let mut vm = VM { program, accumulate: 0 };
    let n = vm.program.len();
    let mut i: usize = 0;
    proof {
        lemma_halt_from_bounds(p, 0);
    }
    while i < n
        invariant
            vm.program@ == p,
            program@ == p,
            n == p.len(),
            i <= n,
            halt_from(p, i as int) == halt_index(p),
            i <= halt_index(p),
            vm.accumulate == accumulated(p, i as int),
            stays_in_range(p, i as int),
        decreases n - i,
    {
        let next = match vm.program[i] {
            Opcode::Inc => vm.accumulate.checked_add(1),
            Opcode::Dec => vm.accumulate.checked_sub(1),
            Opcode::Add(v) => vm.accumulate.checked_add(v),
            Opcode::Sub(v) => vm.accumulate.checked_sub(v),
            Opcode::Done => {
                assert(halt_index(p) == i);
                return Some(vm.accumulate);
            },
        };
        match next {
            Some(v) => {
                vm.accumulate = v;
            },
            None => {
                proof {
                    assert(halt_from(p, i as int) == halt_from(p, i + 1));
                    lemma_halt_from_bounds(p, i + 1);
                    assert(accumulated(p, i + 1) == accumulated(p, i as int) + delta(p[i as int]));
                    assert(!stays_in_range(p, halt_index(p)));
                }
                return None;
            },
        }
        proof {
            assert(halt_from(p, i as int) == halt_from(p, i + 1));
            lemma_halt_from_bounds(p, i + 1);
            assert(accumulated(p, i + 1) == accumulated(p, i as int) + delta(p[i as int]));
            assert forall|k: int| 0 <= k <= i + 1 implies i64::MIN <= #[trigger] accumulated(
                p,
                k,
            ) <= i64::MAX by {
                if k <= i {
                    assert(stays_in_range(p, i as int));
                }
            }
        }
        i = i + 1;
    }
    proof {
        lemma_halt_from_bounds(p, n as int);
    }
    Some(vm.accumulate)
}

} // verus!
