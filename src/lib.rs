//! Exact arithmetic expression evaluation and single-unknown linear
//! equation solving over rational numbers.
//!
//! Text is split into tokens (`tokenizer`), put in postfix order (`rpn`),
//! and then either evaluated on a stack (`postfix`), built into a tree and
//! evaluated (`tree`), or solved for the unknown `X` (`solver`). `calc`
//! chains the steps. Every stage records its reductions as a trace of `Step`s.

pub mod rational;
pub mod token;
pub mod arith;
pub mod tokenizer;
pub mod rpn;
pub mod postfix;
pub mod tree;
pub mod solver;
pub mod calc;
