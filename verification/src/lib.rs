//! A small expression-language front end.
//!
//! A textual program of arithmetic, variable assignment and variable
//! declaration is turned into a value in four stages: a tokenizer scans the
//! text into lexemes, an infix-to-postfix converter applies operator
//! precedence, a tree builder turns the postfix stream into one expression
//! tree per statement, and a step evaluator interprets the trees against a
//! mutable variable state.
//!
//! The numeric domain is a 32-bit scalar that this crate treats as opaque:
//! the evaluator decides everything about control, errors and state, and
//! hands each arithmetic application to its caller as a [`eval::Task`],
//! which the caller answers through [`eval::Evaluator::provide`].
//!
//! Every stage carries an exact specification, and the laws the library
//! stands on are proved in [`grammar`] and [`laws`]: conversion, building
//! and evaluation agree with reading an arithmetic infix expression
//! directly by standard precedence; built trees keep the child-count
//! invariant; assigning then reading a variable round-trips; declaring a
//! variable twice equals declaring it once; and a run stops at the first
//! statement that produces a value.

#![verifier::loop_isolation(false)]
pub mod config;
pub mod error;
pub mod eval;
pub mod grammar;
pub mod laws;
pub mod node;
pub mod parser;
pub mod scalar;
pub mod scan;
pub mod state;
pub mod text;
pub mod token;
