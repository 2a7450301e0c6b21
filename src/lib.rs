//! Small bytecode interpreters: four arithmetic machines (two accumulators,
//! a stack machine and a register machine) and a backtracking
//! pattern-matching virtual machine whose executor always terminates.

pub mod accumulator;
pub mod arithmetic;
pub mod operand_accumulator;
pub mod register_machine;
pub mod regex_semantics;
pub mod regex_vm;
pub mod stack_machine;
