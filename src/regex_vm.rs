use vstd::prelude::*;

use crate::regex_semantics::{
    accepts,
    in_bounds,
    is_accepting,
    is_run,
    is_step,
    lemma_out_of_bounds_rejects,
    lemma_reaches_refl,
    lemma_reaches_then_step,
    links,
    matches_prefix,
    reaches,
    State,
};

verus! {

/// An instruction of the pattern-matching machine.
#[derive(Clone, Copy, Debug, PartialEq, Eq)]
pub enum Opcode {
    /// Match one literal character of the input and advance both pointers.
    Char(char),
    /// Add a signed offset to the instruction pointer.
    Jump(isize),
    /// Try the left offset first, then the right one, both from this instruction.
    Or(isize, isize),
    /// Report a successful match.
    Match,
}

/// The result of a search that may give up.
#[derive(Clone, Copy, Debug, PartialEq, Eq)]
pub enum MatchOutcome {
    /// Some run reaches a `Match` instruction.
    Matched,
    /// No run reaches a `Match` instruction.
    NotMatched,
    /// The search stopped before it could decide.
    StepBudgetExceeded,
}

/// The number of distinct machine states of a program and an input.
pub open spec fn state_count(program_len: int, input_len: int) -> int {
    program_len * (input_len + 1)
}

/// The number of `true` entries.
spec fn count_true(s: Seq<bool>) -> nat
    decreases s.len(),
{
    if s.len() == 0 {
        0
    } else {
        count_true(s.drop_last()) + if s.last() {
            1nat
        } else {
            0nat
        }
    }
}

proof fn lemma_count_true_below_len(s: Seq<bool>, i: int)
    requires
        0 <= i < s.len(),
        !s[i],
    ensures
        count_true(s) < s.len(),
    decreases s.len(),
{
    if i < s.len() - 1 {
        lemma_count_true_below_len(s.drop_last(), i);
    } else {
        lemma_count_true_at_most_len(s.drop_last());
    }
}

proof fn lemma_count_true_at_most_len(s: Seq<bool>)
    ensures
        count_true(s) <= s.len(),
    decreases s.len(),
{
    if s.len() > 0 {
        lemma_count_true_at_most_len(s.drop_last());
    }
}

proof fn lemma_count_true_set(s: Seq<bool>, i: int)
    requires
        0 <= i < s.len(),
        !s[i],
    ensures
        count_true(s.update(i, true)) == count_true(s) + 1,
    decreases s.len(),
{
    let u = s.update(i, true);
    if i == s.len() - 1 {
        assert(u.drop_last() =~= s.drop_last());
    } else {
        assert(u.drop_last() =~= s.drop_last().update(i, true));
        lemma_count_true_set(s.drop_last(), i);
    }
}

/// Where state `s` sits in the table of visited states.
spec fn slot(width: int, s: State) -> int {
    s.0 * width + s.1
}

/// The table marks state `s` as visited.
spec fn seen(visited: Seq<bool>, width: int, s: State) -> bool {
    visited[slot(width, s)]
}

/// The state waits on the stack of choice points.
spec fn on_stack(stack: Seq<(usize, usize)>, s: State) -> bool {
    exists|k: int| 0 <= k < stack.len() && #[trigger] stack[k] == (s.0 as usize, s.1 as usize)
}

/// The state has been visited or waits to be.
spec fn covered(visited: Seq<bool>, stack: Seq<(usize, usize)>, width: int, s: State) -> bool {
    seen(visited, width, s) || on_stack(stack, s)
}

proof fn lemma_slot_bounds(plen: int, width: int, s: State)
    requires
        0 <= s.0 < plen,
        0 <= s.1 < width,
    ensures
        0 <= slot(width, s) < plen * width,
{
    assert(0 <= s.0 * width + s.1 < plen * width) by (nonlinear_arith)
        requires
            0 <= s.0 < plen,
            0 <= s.1 < width,
    ;
}

proof fn lemma_slot_injective(width: int, s: State, t: State)
    requires
        0 <= s.0,
        0 <= t.0,
        0 <= s.1 < width,
        0 <= t.1 < width,
        slot(width, s) == slot(width, t),
    ensures
        s == t,
{
    assert(s.0 == t.0) by (nonlinear_arith)
        requires
            0 <= s.0,
            0 <= t.0,
            0 <= s.1 < width,
            0 <= t.1 < width,
            s.0 * width + s.1 == t.0 * width + t.1,
    ;
}

/// Where a relative jump from `ip` lands, when that is inside the program.
fn jump_target(ip: usize, offset: isize, len: usize) -> (r: Option<usize>)
    ensures
        r == (if 0 <= ip + offset < len {
            Some((ip + offset) as usize)
        } else {
            None
        }),
{
    let t: i128 = ip as i128 + offset as i128;
    if 0 <= t && t < len as i128 {
        Some(t as usize)
    } else {
        None
    }
}

/// The state that a stack entry stands for.
spec fn as_state(x: (usize, usize)) -> State {
    (x.0 as int, x.1 as int)
}

proof fn lemma_on_stack_pop(stack: Seq<(usize, usize)>, t: State)
    requires
        on_stack(stack, t),
        stack.len() > 0,
    ensures
        on_stack(stack.drop_last(), t) || stack.last() == (t.0 as usize, t.1 as usize),
{
    let k = choose|k: int| 0 <= k < stack.len() && #[trigger] stack[k] == (t.0 as usize, t.1 as usize);
    if k < stack.len() - 1 {
        assert(stack.drop_last()[k] == stack[k]);
    }
}

proof fn lemma_on_stack_extend(stack: Seq<(usize, usize)>, more: Seq<(usize, usize)>, t: State)
    ensures
        on_stack(stack, t) ==> on_stack(stack + more, t),
        (exists|j: int| 0 <= j < more.len() && #[trigger] more[j] == (t.0 as usize, t.1 as usize))
            ==> on_stack(stack + more, t),
{
    if on_stack(stack, t) {
        let k = choose|k: int| 0 <= k < stack.len() && #[trigger] stack[k] == (t.0 as usize, t.1 as usize);
        assert((stack + more)[k] == stack[k]);
    }
    if exists|j: int| 0 <= j < more.len() && #[trigger] more[j] == (t.0 as usize, t.1 as usize) {
        let j = choose|j: int| 0 <= j < more.len() && #[trigger] more[j] == (t.0 as usize, t.1 as usize);
        assert((stack + more)[stack.len() + j] == more[j]);
    }
}

/// The states that the instruction at `(ip, sp)` continues with, left alternative
/// first; only those inside the program are returned.
fn successors(program: &[Opcode], sample: &[char], ip: usize, sp: usize) -> (r: (
    Option<(usize, usize)>,
    Option<(usize, usize)>,
))
    requires
        in_bounds(program@, sample@, (ip as int, sp as int)),
        !(program@[ip as int] is Match),
    ensures
        r.0 is Some ==> in_bounds(program@, sample@, as_state(r.0->0)) && is_step(
            program@,
            sample@,
            (ip as int, sp as int),
            as_state(r.0->0),
        ),
        r.1 is Some ==> in_bounds(program@, sample@, as_state(r.1->0)) && is_step(
            program@,
            sample@,
            (ip as int, sp as int),
            as_state(r.1->0),
        ),
        forall|t: State|
            #[trigger] is_step(program@, sample@, (ip as int, sp as int), t) && in_bounds(
                program@,
                sample@,
                t,
            ) ==> r.0 == Some((t.0 as usize, t.1 as usize)) || r.1 == Some(
                (t.0 as usize, t.1 as usize),
            ),
{
    let plen = program.len();
    match program[ip] {
        Opcode::Char(c) => {
            if sp < sample.len() && sample[sp] == c && ip + 1 < plen {
                (Some((ip + 1, sp + 1)), None)
            } else {
                (None, None)
            }
        },
        Opcode::Jump(offset) => match jump_target(ip, offset, plen) {
            Some(t) => (Some((t, sp)), None),
            None => (None, None),
        },
        Opcode::Or(left, right) => {
            let l = match jump_target(ip, left, plen) {
                Some(t) => Some((t, sp)),
                None => None,
            };
            let r = match jump_target(ip, right, plen) {
                Some(t) => Some((t, sp)),
                None => None,
            };
            (l, r)
        },
        Opcode::Match => (None, None),
    }
}

/// Every transition out of a visited state leads outside the program, to a
/// visited state, or to a state on the stack; the state is reachable from the
/// start and does not accept.
spec fn settled(
    program: Seq<Opcode>,
    input: Seq<char>,
    start: State,
    visited: Seq<bool>,
    stack: Seq<(usize, usize)>,
    width: int,
    s: State,
) -> bool {
    &&& reaches(program, input, start, s)
    &&& !is_accepting(program, input, s)
    &&& forall|t: State|
        #[trigger] is_step(program, input, s, t) && in_bounds(program, input, t) ==> covered(
            visited,
            stack,
            width,
            t,
        )
}

/// Along a run whose end accepts, a closed visited set that holds one state
/// holds every later one.
proof fn lemma_closed_path(
    program: Seq<Opcode>,
    input: Seq<char>,
    start: State,
    visited: Seq<bool>,
    width: int,
    path: Seq<State>,
    i: int,
)
    requires
        0 <= i < path.len(),
        is_run(program, input, path),
        is_accepting(program, input, path.last()),
        in_bounds(program, input, path[i]),
        seen(visited, width, path[i]),
        forall|s: State|
            in_bounds(program, input, s) && #[trigger] seen(visited, width, s) ==> settled(
                program,
                input,
                start,
                visited,
                Seq::empty(),
                width,
                s,
            ),
    ensures
        seen(visited, width, path.last()),
    decreases path.len() - i,
{
    if i < path.len() - 1 {
        assert(links(program, input, path, i));
        if i + 1 < path.len() - 1 {
            assert(links(program, input, path, i + 1));
        }
        assert(settled(program, input, start, visited, Seq::empty(), width, path[i]));
        assert(covered(visited, Seq::empty(), width, path[i + 1]));
        lemma_closed_path(program, input, start, visited, width, path, i + 1);
    }
}

/// When the visited states are closed under transitions and none accepts, the
/// start accepts nothing.
proof fn lemma_closed_rejects(
    program: Seq<Opcode>,
    input: Seq<char>,
    start: State,
    visited: Seq<bool>,
    width: int,
)
    requires
        width == input.len() + 1,
        in_bounds(program, input, start),
        seen(visited, width, start),
        forall|s: State|
            in_bounds(program, input, s) && #[trigger] seen(visited, width, s) ==> settled(
                program,
                input,
                start,
                visited,
                Seq::empty(),
                width,
                s,
            ),
    ensures
        !accepts(program, input, start),
{
    if accepts(program, input, start) {
        let t = choose|t: State|
            #[trigger] reaches(program, input, start, t) && is_accepting(program, input, t);
        let path = choose|path: Seq<State>|
            #[trigger] is_run(program, input, path) && path[0] == start && path.last() == t;
        lemma_closed_path(program, input, start, visited, width, path, 0);
        assert(settled(program, input, start, visited, Seq::empty(), width, t));
    }
}

/// Searches for a run from `(instruction, symbol)` to a `Match` instruction,
/// trying the left alternative of each `Or` first and keeping the untried
/// right alternatives on an explicit stack. Each machine state is explored at
/// most once, so cycles that consume no input end the path that closes them,
/// and at most `budget` states are explored before the search gives up.
/// Positions outside the program or the input fail the path that reaches them.
pub fn vm_run(
    program: &[Opcode],
    sample: &[char],
    instruction: isize,
    symbol: isize,
    budget: usize,
) -> (r: MatchOutcome)
    ensures
        r is Matched ==> accepts(program@, sample@, (instruction as int, symbol as int)),
        r is NotMatched ==> !accepts(program@, sample@, (instruction as int, symbol as int)),
        state_count(program@.len() as int, sample@.len() as int) <= budget ==> !(
        r is StepBudgetExceeded),
{
    let ghost p = program@;
    let ghost input = sample@;
    let ghost start: State = (instruction as int, symbol as int);
    let plen = program.len();
    let ilen = sample.len();
    if instruction < 0 || symbol < 0 || instruction as usize >= plen || symbol as usize > ilen {
        proof {
            lemma_out_of_bounds_rejects(p, input, start);
        }
        return MatchOutcome::NotMatched;
    }
    let width = match ilen.checked_add(1) {
        Some(w) => w,
        None => {
            assert(plen * (ilen + 1) >= ilen + 1) by (nonlinear_arith)
                requires
                    plen >= 1,
            ;
            return MatchOutcome::StepBudgetExceeded;
        },
    };
    let total = match plen.checked_mul(width) {
        Some(n) => n,
        None => {
            return MatchOutcome::StepBudgetExceeded;
        },
    };
    let mut visited: Vec<bool> = Vec::new();
    let mut i: usize = 0;
    while i < total
        invariant
            i <= total,
            visited@.len() == i,
            count_true(visited@) == 0,
            forall|j: int| 0 <= j < i ==> !visited@[j],
        decreases total - i,
    {
        proof {
            assert(visited@.push(false).drop_last() =~= visited@);
        }
        visited.push(false);
        i = i + 1;
    }
    let mut stack: Vec<(usize, usize)> = Vec::new();
    stack.push((instruction as usize, symbol as usize));
    let mut explored: usize = 0;
    proof {
        lemma_reaches_refl(p, input, start);
        assert(stack@[0] == (start.0 as usize, start.1 as usize));
        lemma_slot_bounds(plen as int, width as int, start);
        assert forall|s: State| in_bounds(p, input, s) implies !#[trigger] seen(
            visited@,
            width as int,
            s,
        ) by {
            lemma_slot_bounds(plen as int, width as int, s);
        }
    }
    loop
        invariant
            p == program@,
            input == sample@,
            plen == p.len(),
            ilen == input.len(),
            width == ilen + 1,
            total == plen * width,
            start == (instruction as int, symbol as int),
            in_bounds(p, input, start),
            visited@.len() == total,
            explored <= budget,
            count_true(visited@) == explored,
            forall|k: int|
                0 <= k < stack@.len() ==> in_bounds(p, input, #[trigger] as_state(stack@[k]))
                    && reaches(p, input, start, as_state(stack@[k])),
            covered(visited@, stack@, width as int, start),
            forall|s: State|
                in_bounds(p, input, s) && #[trigger] seen(visited@, width as int, s) ==> settled(
                    p,
                    input,
                    start,
                    visited@,
                    stack@,
                    width as int,
                    s,
                ),
        decreases budget - explored, stack.len(),
    {
        let ghost old_stack = stack@;
        let ghost old_visited = visited@;
        let top = stack.pop();
        let (ip, sp) = match top {
            Some(x) => x,
            None => {
                proof {
                    assert(stack@ =~= Seq::<(usize, usize)>::empty());
                    lemma_closed_rejects(p, input, start, visited@, width as int);
                }
                return MatchOutcome::NotMatched;
            },
        };
        let ghost cur: State = (ip as int, sp as int);
        proof {
            assert(old_stack.last() == (ip, sp));
            assert(as_state(old_stack[old_stack.len() - 1]) == cur);
            assert(stack@ =~= old_stack.drop_last());
            assert forall|k: int| 0 <= k < stack@.len() implies stack@[k] == old_stack[k] by {}
            lemma_slot_bounds(plen as int, width as int, cur);
            // a state covered before the pop is covered after it, or is the popped one
            assert forall|t: State|
                in_bounds(p, input, t) && #[trigger] covered(old_visited, old_stack, width as int, t)
                implies covered(visited@, stack@, width as int, t) || t == cur by {
                if on_stack(old_stack, t) {
                    lemma_on_stack_pop(old_stack, t);
                }
            }
        }
        let k = ip * width + sp;
        if visited[k] {
            proof {
                assert(seen(visited@, width as int, cur));
                assert forall|s: State|
                    in_bounds(p, input, s) && #[trigger] seen(visited@, width as int, s) implies settled(
                    p,
                    input,
                    start,
                    visited@,
                    stack@,
                    width as int,
                    s,
                ) by {
                    assert(settled(p, input, start, old_visited, old_stack, width as int, s));
                    assert forall|t: State|
                        #[trigger] is_step(p, input, s, t) && in_bounds(p, input, t) implies covered(
                        visited@,
                        stack@,
                        width as int,
                        t,
                    ) by {
                        assert(covered(old_visited, old_stack, width as int, t));
                    }
                }
                assert(covered(old_visited, old_stack, width as int, start));
            }
            continue;
        }
        if explored == budget {
            proof {
                lemma_count_true_below_len(visited@, k as int);
            }
            return MatchOutcome::StepBudgetExceeded;
        }
        proof {
            lemma_count_true_set(visited@, k as int);
        }
        explored = explored + 1;
        visited.set(k, true);
        proof {
            // the table now marks exactly the states marked before, and the current one
            assert forall|s: State| in_bounds(p, input, s) implies #[trigger] seen(
                visited@,
                width as int,
                s,
            ) == (seen(old_visited, width as int, s) || s == cur) by {
                lemma_slot_bounds(plen as int, width as int, s);
                if slot(width as int, s) == k {
                    lemma_slot_injective(width as int, s, cur);
                }
            }
        }
        if let Opcode::Match = program[ip] {
            proof {
                assert(reaches(p, input, start, cur));
            }
            return MatchOutcome::Matched;
        }
        let ghost popped = stack@;
        let (first, second) = successors(program, sample, ip, sp);
        let ghost mut more: Seq<(usize, usize)> = Seq::empty();
        if let Some(x) = second {
            stack.push(x);
            proof {
                more = more.push(x);
            }
        }
        if let Some(x) = first {
            stack.push(x);
            proof {
                more = more.push(x);
            }
        }
        proof {
            assert(stack@ =~= popped + more);
            assert forall|k2: int| 0 <= k2 < stack@.len() implies in_bounds(
                p,
                input,
                #[trigger] as_state(stack@[k2]),
            ) && reaches(p, input, start, as_state(stack@[k2])) by {
                if k2 >= popped.len() {
                    let x = stack@[k2];
                    assert(x == first->0 || x == second->0);
                    lemma_reaches_then_step(p, input, start, cur, as_state(x));
                } else {
                    assert(stack@[k2] == popped[k2]);
                }
            }
            // what was covered stays covered
            assert forall|t: State|
                in_bounds(p, input, t) && #[trigger] covered(old_visited, old_stack, width as int, t)
                implies covered(visited@, stack@, width as int, t) by {
                lemma_on_stack_extend(popped, more, t);
            }
            assert forall|s: State|
                in_bounds(p, input, s) && #[trigger] seen(visited@, width as int, s) implies settled(
                p,
                input,
                start,
                visited@,
                stack@,
                width as int,
                s,
            ) by {
                if s == cur {
                    assert forall|t: State|
                        #[trigger] is_step(p, input, s, t) && in_bounds(p, input, t) implies covered(
                        visited@,
                        stack@,
                        width as int,
                        t,
                    ) by {
                        let x = (t.0 as usize, t.1 as usize);
                        if first == Some(x) {
                            assert(more[more.len() - 1] == x);
                        } else {
                            assert(more[0] == x);
                        }
                        lemma_on_stack_extend(popped, more, t);
                    }
                } else {
                    assert(settled(p, input, start, old_visited, old_stack, width as int, s));
                    assert forall|t: State|
                        #[trigger] is_step(p, input, s, t) && in_bounds(p, input, t) implies covered(
                        visited@,
                        stack@,
                        width as int,
                        t,
                    ) by {
                        assert(covered(old_visited, old_stack, width as int, t));
                    }
                }
            }
            assert(covered(old_visited, old_stack, width as int, start));
        }
    }
}

/// Decides whether a run from `(instruction, symbol)` reaches a `Match`
/// instruction. The budget covers every state, so the search always decides.
pub fn vm_match_recur(program: &[Opcode], sample: &[char], instruction: isize, symbol: isize) -> (r:
    bool)
    requires
        state_count(program@.len() as int, sample@.len() as int) <= usize::MAX,
    ensures
        r == accepts(program@, sample@, (instruction as int, symbol as int)),
{
    if program.len() == 0 {
        proof {
            lemma_out_of_bounds_rejects(program@, sample@, (instruction as int, symbol as int));
        }
        return false;
    }
    assert(program.len() * (sample.len() + 1) >= sample.len() + 1) by (nonlinear_arith)
        requires
            program.len() >= 1,
    ;
    let budget = program.len() * (sample.len() + 1);
    match vm_run(program, sample, instruction, symbol, budget) {
        MatchOutcome::Matched => true,
        _ => false,
    }
}

/// Decides whether `program` matches a prefix of `sample`, reading the text
/// as a sequence of characters and starting at instruction 0, position 0.
pub fn vm_match(program: Vec<Opcode>, sample: &str) -> (r: bool)
    requires
        state_count(program@.len() as int, sample@.len() as int) <= usize::MAX,
    ensures
        r == matches_prefix(program@, sample@),
{
    let mut text: Vec<char> = Vec::new();
    for c in it: sample.chars()
        invariant
            text@ == it.seq().take(it.index() as int),
    {
        text.push(c);
    }
    assert(text@ == sample@);
    vm_match_recur(program.as_slice(), text.as_slice(), 0, 0)
}

} // verus!
