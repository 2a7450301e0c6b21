use bytecode_vm::regex_vm::Opcode::{Char, Jump, Match, Or};
use bytecode_vm::regex_vm::{vm_match, vm_match_recur, vm_run, MatchOutcome, Opcode};

fn alternation_program() -> Vec<Opcode> {
    // "(a|b)c"
    vec![Or(1, 3), Char('a'), Jump(2), Char('b'), Jump(1), Char('c'), Match]
}

#[test]
fn ops() {
    // an empty program has no instruction 0, so it matches nothing
    assert!(!vm_match(vec![], "anything"));

    // ""
    assert!(vm_match(vec![Match], "anything"));

    // "a"
    assert!(vm_match(vec![Char('a'), Match], "ab"));
}

#[test]
fn sequence() {
    // "ab"
    assert!(vm_match(vec![Char('a'), Char('b'), Match], "ab"));
}

#[test]
fn or() {
    // "(a|b)c"
    assert!(vm_match(
        vec![Or(1, 3), Char('a'), Jump(2), Char('b'), Jump(1), Char('c'), Match],
        "ac"
    ));

    assert!(vm_match(
        vec![Or(1, 3), Char('a'), Jump(2), Char('b'), Jump(1), Char('c'), Match],
        "bc"
    ));

    assert_eq!(
        vm_match(
            vec![Or(1, 3), Char('a'), Jump(2), Char('b'), Jump(1), Char('c'), Match],
            "ab"
        ),
        false
    );
}

#[test]
fn single_match_accepts_empty_text() {
    assert!(vm_match(vec![Match], ""));
}

#[test]
fn empty_program_rejects_empty_text() {
    assert!(!vm_match(vec![], ""));
    assert_eq!(vm_run(&[], &[], 0, 0, 100), MatchOutcome::NotMatched);
}

#[test]
fn char_then_match_needs_that_first_char() {
    assert!(!vm_match(vec![Char('a'), Match], "ba"));
    assert!(!vm_match(vec![Char('a'), Match], ""));
    assert!(vm_match(vec![Char('a'), Match], "a"));
}

#[test]
fn literal_needs_every_char_in_order() {
    let lit = vec![Char('a'), Char('b'), Match];
    assert!(vm_match(lit.clone(), "abc"));
    assert!(!vm_match(lit.clone(), "ba"));
    assert!(!vm_match(lit.clone(), "a"));
    assert!(!vm_match(lit, "ac"));
}

#[test]
fn alternation_rejects_other_texts() {
    assert!(!vm_match(alternation_program(), "cc"));
    assert!(!vm_match(alternation_program(), "a"));
    assert!(vm_match(alternation_program(), "bcd"));
}

#[test]
fn non_progressing_cycle_terminates() {
    assert!(!vm_match(vec![Jump(0)], "anything"));
    assert!(!vm_match(vec![Jump(1), Jump(-1)], ""));
    // a left alternative that loops on itself falls through to the right one
    assert!(vm_match(vec![Or(0, 1), Match], "x"));
    // "a*" followed by "b"
    let star = vec![Or(1, 3), Char('a'), Jump(-2), Char('b'), Match];
    assert!(vm_match(star.clone(), "aaab"));
    assert!(vm_match(star.clone(), "b"));
    assert!(!vm_match(star, "aaa"));
}

#[test]
fn budget_exhaustion_is_reported() {
    assert_eq!(vm_run(&[Jump(0)], &[], 0, 0, 0), MatchOutcome::StepBudgetExceeded);
    assert_eq!(vm_run(&[Jump(0)], &[], 0, 0, 1), MatchOutcome::NotMatched);
    let prog = alternation_program();
    let text = ['b', 'c'];
    assert_eq!(vm_run(&prog, &text, 0, 0, 2), MatchOutcome::StepBudgetExceeded);
    assert_eq!(vm_run(&prog, &text, 0, 0, 21), MatchOutcome::Matched);
}

#[test]
fn out_of_range_pointers_fail_locally() {
    let text = ['a'];
    assert!(!vm_match_recur(&[Char('a'), Match], &text, -1, 0));
    assert!(!vm_match_recur(&[Char('a'), Match], &text, 0, -1));
    assert!(!vm_match_recur(&[Char('a'), Match], &text, 0, 2));
    assert!(!vm_match_recur(&[Char('a'), Match], &text, 2, 0));
    assert!(vm_match_recur(&[Char('a'), Match], &text, 1, 1));
    assert!(!vm_match(vec![Jump(isize::MAX)], "a"));
    assert!(!vm_match(vec![Jump(isize::MIN), Match], "a"));
    assert!(!vm_match(vec![Or(isize::MAX, isize::MIN), Match], "a"));
    assert!(vm_match(vec![Or(isize::MAX, 1), Match], "a"));
}

#[test]
fn repeated_calls_agree() {
    let text: Vec<char> = "bc".chars().collect();
    let prog = alternation_program();
    let first = vm_match_recur(&prog, &text, 0, 0);
    let second = vm_match_recur(&prog, &text, 0, 0);
    assert!(first);
    assert_eq!(first, second);
    assert_eq!(prog, alternation_program());
}

#[test]
fn characters_are_code_points() {
    assert!(vm_match(vec![Char('é'), Char('b'), Match], "éb"));
    assert!(!vm_match(vec![Char('e'), Match], "é"));
}
