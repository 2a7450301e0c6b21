use vstd::prelude::*;

use crate::regex_vm::Opcode;

verus! {

/// A machine state: the instruction pointer and the symbol pointer.
pub type State = (int, int);

/// The state names an instruction of the program and a position in the input
/// (the position just past the last symbol included).
pub open spec fn in_bounds(program: Seq<Opcode>, input: Seq<char>, s: State) -> bool {
    0 <= s.0 < program.len() && 0 <= s.1 <= input.len()
}

/// The state executes a `Match` instruction.
pub open spec fn is_accepting(program: Seq<Opcode>, input: Seq<char>, s: State) -> bool {
    in_bounds(program, input, s) && program[s.0] is Match
}

/// One transition of the machine from `s` to `t`. Offsets are added to the
/// instruction pointer of `s`; the target need not lie inside the program.
pub open spec fn is_step(program: Seq<Opcode>, input: Seq<char>, s: State, t: State) -> bool {
    in_bounds(program, input, s) && match program[s.0] {
        Opcode::Char(c) => s.1 < input.len() && input[s.1] == c && t == (s.0 + 1, s.1 + 1),
        Opcode::Jump(offset) => t == (s.0 + offset, s.1),
        Opcode::Or(left, right) => t == (s.0 + left, s.1) || t == (s.0 + right, s.1),
        Opcode::Match => false,
    }
}

/// The `i`-th and the next state of `path` are joined by a transition.
pub open spec fn links(program: Seq<Opcode>, input: Seq<char>, path: Seq<State>, i: int) -> bool {
    is_step(program, input, path[i], path[i + 1])
}

/// A non-empty sequence of states, each joined to the next by a transition.
pub open spec fn is_run(program: Seq<Opcode>, input: Seq<char>, path: Seq<State>) -> bool {
    &&& path.len() > 0
    &&& forall|i: int| 0 <= i < path.len() - 1 ==> #[trigger] links(program, input, path, i)
}

/// Some run leads from `s` to `t`.
pub open spec fn reaches(program: Seq<Opcode>, input: Seq<char>, s: State, t: State) -> bool {
    exists|path: Seq<State>|
        #[trigger] is_run(program, input, path) && path[0] == s && path.last() == t
}

/// Some run from `s` reaches a `Match` instruction.
pub open spec fn accepts(program: Seq<Opcode>, input: Seq<char>, s: State) -> bool {
    exists|t: State| #[trigger] reaches(program, input, s, t) && is_accepting(program, input, t)
}

/// The program matches a prefix of `text`: a run from instruction 0 at
/// position 0 reaches a `Match` instruction.
pub open spec fn matches_prefix(program: Seq<Opcode>, text: Seq<char>) -> bool {
    accepts(program, text, (0, 0))
}

/// Every state reaches itself.
pub proof fn lemma_reaches_refl(program: Seq<Opcode>, input: Seq<char>, s: State)
    ensures
        reaches(program, input, s, s),
{
    let path = seq![s];
    assert(is_run(program, input, path));
}

/// A run can be extended by one transition at its end.
pub proof fn lemma_reaches_then_step(
    program: Seq<Opcode>,
    input: Seq<char>,
    s: State,
    u: State,
    t: State,
)
    requires
        reaches(program, input, s, u),
        is_step(program, input, u, t),
    ensures
        reaches(program, input, s, t),
{
    let path = choose|path: Seq<State>|
        #[trigger] is_run(program, input, path) && path[0] == s && path.last() == u;
    let longer = path.push(t);
    assert forall|i: int| 0 <= i < longer.len() - 1 implies #[trigger] links(
        program,
        input,
        longer,
        i,
    ) by {
        if i < path.len() - 1 {
            assert(links(program, input, path, i));
        }
    }
    assert(is_run(program, input, longer));
}

/// A run can be extended by one transition at its start.
pub proof fn lemma_step_then_reaches(
    program: Seq<Opcode>,
    input: Seq<char>,
    s: State,
    u: State,
    t: State,
)
    requires
        is_step(program, input, s, u),
        reaches(program, input, u, t),
    ensures
        reaches(program, input, s, t),
{
    let path = choose|path: Seq<State>|
        #[trigger] is_run(program, input, path) && path[0] == u && path.last() == t;
    let longer = seq![s] + path;
    assert forall|i: int| 0 <= i < longer.len() - 1 implies #[trigger] links(
        program,
        input,
        longer,
        i,
    ) by {
        if i > 0 {
            assert(links(program, input, path, i - 1));
        }
    }
    assert(is_run(program, input, longer));
}

/// A run of two or more states leaves its first state by a transition.
pub proof fn lemma_reaches_first_step(
    program: Seq<Opcode>,
    input: Seq<char>,
    s: State,
    t: State,
) -> (u: State)
    requires
        reaches(program, input, s, t),
        s != t,
    ensures
        is_step(program, input, s, u),
        reaches(program, input, u, t),
{
    let path = choose|path: Seq<State>|
        #[trigger] is_run(program, input, path) && path[0] == s && path.last() == t;
    assert(links(program, input, path, 0));
    let rest = path.drop_first();
    assert forall|i: int| 0 <= i < rest.len() - 1 implies #[trigger] links(
        program,
        input,
        rest,
        i,
    ) by {
        assert(links(program, input, path, i + 1));
    }
    assert(is_run(program, input, rest));
    path[1]
}

/// A state accepts exactly when it executes `Match`, or it has a transition to
/// a state that accepts.
pub proof fn lemma_accepts_unfold(program: Seq<Opcode>, input: Seq<char>, s: State)
    ensures
        accepts(program, input, s) <==> (is_accepting(program, input, s) || exists|u: State|
            #[trigger] is_step(program, input, s, u) && accepts(program, input, u)),
{
    if accepts(program, input, s) && !is_accepting(program, input, s) {
        let t = choose|t: State|
            #[trigger] reaches(program, input, s, t) && is_accepting(program, input, t);
        let u = lemma_reaches_first_step(program, input, s, t);
        assert(accepts(program, input, u));
    }
    if is_accepting(program, input, s) {
        lemma_reaches_refl(program, input, s);
    }
    if exists|u: State| #[trigger] is_step(program, input, s, u) && accepts(program, input, u) {
        let u = choose|u: State| #[trigger] is_step(program, input, s, u) && accepts(program, input, u);
        let t = choose|t: State|
            #[trigger] reaches(program, input, u, t) && is_accepting(program, input, t);
        lemma_step_then_reaches(program, input, s, u, t);
    }
}

/// A state outside the program or outside the input fails locally: nothing
/// is read there and no run from it accepts.
pub proof fn lemma_out_of_bounds_rejects(program: Seq<Opcode>, input: Seq<char>, s: State)
    requires
        !in_bounds(program, input, s),
    ensures
        !accepts(program, input, s),
{
    lemma_accepts_unfold(program, input, s);
}

/// A state that executes `Match` accepts.
pub proof fn lemma_accepting_accepts(program: Seq<Opcode>, input: Seq<char>, s: State)
    requires
        is_accepting(program, input, s),
    ensures
        accepts(program, input, s),
{
    lemma_reaches_refl(program, input, s);
}

/// A `Char` instruction accepts exactly when the next symbol is its character
/// and the state one instruction and one symbol further accepts.
pub proof fn lemma_accepts_char(program: Seq<Opcode>, input: Seq<char>, s: State, c: char)
    requires
        in_bounds(program, input, s),
        program[s.0] == Opcode::Char(c),
    ensures
        accepts(program, input, s) <==> (s.1 < input.len() && input[s.1] == c && accepts(
            program,
            input,
            (s.0 + 1, s.1 + 1),
        )),
{
    lemma_accepts_unfold(program, input, s);
    if s.1 < input.len() && input[s.1] == c {
        assert(is_step(program, input, s, (s.0 + 1, s.1 + 1)));
    }
}

/// A `Jump` instruction accepts exactly when its target accepts.
pub proof fn lemma_accepts_jump(program: Seq<Opcode>, input: Seq<char>, s: State, offset: isize)
    requires
        in_bounds(program, input, s),
        program[s.0] == Opcode::Jump(offset),
    ensures
        accepts(program, input, s) <==> accepts(program, input, (s.0 + offset, s.1)),
{
    lemma_accepts_unfold(program, input, s);
    assert(is_step(program, input, s, (s.0 + offset, s.1)));
}

/// An `Or` instruction accepts exactly when its left alternative accepts or,
/// failing that, its right one does: the order of the attempts never changes
/// the answer.
pub proof fn lemma_accepts_or(
    program: Seq<Opcode>,
    input: Seq<char>,
    s: State,
    left: isize,
    right: isize,
)
    requires
        in_bounds(program, input, s),
        program[s.0] == Opcode::Or(left, right),
    ensures
        accepts(program, input, s) <==> (accepts(program, input, (s.0 + left, s.1)) || accepts(
            program,
            input,
            (s.0 + right, s.1),
        )),
{
    lemma_accepts_unfold(program, input, s);
    assert(is_step(program, input, s, (s.0 + left, s.1)));
    assert(is_step(program, input, s, (s.0 + right, s.1)));
}

/// The program `[Match]` matches every text, the empty one included.
pub proof fn lemma_single_match_accepts_all(text: Seq<char>)
    ensures
        matches_prefix(seq![Opcode::Match], text),
{
    lemma_accepting_accepts(seq![Opcode::Match], text, (0, 0));
}

/// The empty program matches no text, the empty one included: instruction 0
/// lies outside it.
pub proof fn lemma_empty_program_rejects(text: Seq<char>)
    ensures
        !matches_prefix(Seq::<Opcode>::empty(), text),
{
    lemma_out_of_bounds_rejects(Seq::<Opcode>::empty(), text, (0, 0));
}

/// The program `[Char(c), Match]` matches exactly the texts whose first
/// character is `c`.
pub proof fn lemma_char_then_match(c: char, text: Seq<char>)
    ensures
        matches_prefix(seq![Opcode::Char(c), Opcode::Match], text) <==> (text.len() > 0 && text[0]
            == c),
{
    let program = seq![Opcode::Char(c), Opcode::Match];
    lemma_accepts_char(program, text, (0, 0), c);
    if text.len() > 0 {
        lemma_accepting_accepts(program, text, (1, 1));
    }
}

/// The program that matches the characters of `lit` one after the other and
/// then reports a match.
pub open spec fn literal_program(lit: Seq<char>) -> Seq<Opcode> {
    Seq::new((lit.len() + 1) as nat, |i: int| literal_instruction(lit, i))
}

/// Instruction `i` of the literal program of `lit`.
pub open spec fn literal_instruction(lit: Seq<char>, i: int) -> Opcode {
    if 0 <= i < lit.len() {
        Opcode::Char(lit[i])
    } else {
        Opcode::Match
    }
}

/// From instruction `k` of a literal program and position `j`, the run accepts
/// exactly when the rest of the literal appears in the input at `j`.
proof fn lemma_literal_suffix(lit: Seq<char>, input: Seq<char>, k: int, j: int)
    requires
        0 <= k <= lit.len(),
        0 <= j <= input.len(),
    ensures
        accepts(literal_program(lit), input, (k, j)) <==> (j + (lit.len() - k) <= input.len()
            && input.subrange(j, j + (lit.len() - k)) == lit.subrange(k, lit.len() as int)),
    decreases lit.len() - k,
{
    let program = literal_program(lit);
    assert(program.len() == lit.len() + 1);
    let m = lit.len() - k;
    if k == lit.len() {
        assert(program[k] == Opcode::Match);
        lemma_accepting_accepts(program, input, (k, j));
        assert(input.subrange(j, j) =~= lit.subrange(k, lit.len() as int));
    } else {
        assert(program[k] == Opcode::Char(lit[k]));
        lemma_accepts_char(program, input, (k, j), lit[k]);
        if j < input.len() {
            lemma_literal_suffix(lit, input, k + 1, j + 1);
            if j + m <= input.len() {
                let a = input.subrange(j, j + m);
                let b = lit.subrange(k, lit.len() as int);
                assert(input.subrange(j + 1, j + m) =~= a.drop_first());
                assert(lit.subrange(k + 1, lit.len() as int) =~= b.drop_first());
                assert(a[0] == input[j]);
                assert(b[0] == lit[k]);
                if a[0] == b[0] && a.drop_first() == b.drop_first() {
                    assert forall|i: int| 0 <= i < a.len() implies a[i] == b[i] by {
                        if i > 0 {
                            assert(a[i] == a.drop_first()[i - 1]);
                            assert(b[i] == b.drop_first()[i - 1]);
                        }
                    }
                    assert(a =~= b);
                }
            }
        }
    }
}

/// A literal program matches exactly the texts that begin with its literal;
/// characters after the literal do not matter.
pub proof fn lemma_literal_matches_prefix(lit: Seq<char>, text: Seq<char>)
    ensures
        matches_prefix(literal_program(lit), text) <==> lit.is_prefix_of(text),
{
    lemma_literal_suffix(lit, text, 0, 0);
    assert(lit.subrange(0, lit.len() as int) =~= lit);
}

/// Along any run that starts at a position inside the input, every position
/// stays inside the input (its end included), and every state that executes
/// an instruction lies inside the program.
pub proof fn lemma_run_stays_in_bounds(program: Seq<Opcode>, input: Seq<char>, path: Seq<State>)
    requires
        is_run(program, input, path),
        0 <= path[0].1 <= input.len(),
    ensures
        forall|i: int| 0 <= i < path.len() ==> 0 <= #[trigger] path[i].1 <= input.len(),
        forall|i: int| 0 <= i < path.len() - 1 ==> in_bounds(program, input, #[trigger] path[i]),
{
    assert forall|i: int| 0 <= i < path.len() - 1 implies in_bounds(
        program,
        input,
        #[trigger] path[i],
    ) by {
        assert(links(program, input, path, i));
    }
    assert forall|i: int| 0 <= i < path.len() implies 0 <= #[trigger] path[i].1 <= input.len() by {
        if i > 0 {
            assert(links(program, input, path, i - 1));
        }
    }
}

/// A program without a `Match` instruction matches nothing, whatever cycles
/// its jumps form.
pub proof fn lemma_no_match_instruction_rejects(program: Seq<Opcode>, input: Seq<char>, s: State)
    requires
        forall|i: int| 0 <= i < program.len() ==> !(#[trigger] program[i] is Match),
    ensures
        !accepts(program, input, s),
{
    if accepts(program, input, s) {
        let t = choose|t: State|
            #[trigger] reaches(program, input, s, t) && is_accepting(program, input, t);
        assert(program[t.0] is Match);
    }
}

/// A jump to itself never matches.
pub proof fn lemma_self_jump_rejects(text: Seq<char>)
    ensures
        !matches_prefix(seq![Opcode::Jump(0)], text),
{
    lemma_no_match_instruction_rejects(seq![Opcode::Jump(0)], text, (0, 0));
}

} // verus!
