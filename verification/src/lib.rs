//! A small regular-expression compiler and matcher, with its proofs.
//!
//! A pattern is parsed from its source text ([`parse`]), compiled to a
//! nondeterministic automaton with free moves by Thompson's construction
//! ([`thompson`]), and matched by simulating that automaton on sets of
//! states ([`nfa`]). The subset construction ([`simulation`]) turns the
//! automaton into a deterministic one ([`dfa`]) that accepts the same
//! strings.
//!
//! What the automata mean is stated in [`semantics`]; [`paths`],
//! [`correctness`], [`determinize`], [`language`] and [`roundtrip`] hold
//! the proofs that the compiled automaton accepts exactly the strings of
//! the pattern, that determinization keeps the accepted strings, and that
//! a printed pattern is read back with its language.
//!
//! Beside the matcher stand the other machines of the same family:
//! pushdown automata, deterministic ([`pda`]) and nondeterministic
//! ([`npda`]), a deterministic Turing machine ([`turing_machine`]), and an
//! interpreter for a small imperative language ([`expression`],
//! [`statement`], [`functions`]) with the laws of its runs ([`runs`]) and
//! a lexical analyzer for its source text ([`lexer`]).

pub mod correctness;
pub mod determinize;
pub mod dfa;
pub mod equality;
pub mod expression;
pub mod functions;
pub mod language;
pub mod lexer;
pub mod nfa;
pub mod npda;
pub mod parse;
pub mod paths;
pub mod pattern;
pub mod pda;
pub mod roundtrip;
pub mod rule;
pub mod runs;
pub mod search;
pub mod semantics;
pub mod simulation;
pub mod state;
pub mod statement;
pub mod states;
pub mod text;
pub mod thompson;
pub mod turing_machine;
