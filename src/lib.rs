//! A single-tape Turing machine: the tape, the transition table, the
//! single-step semantics with its run loop, and the parser for program text.

pub mod lex;
pub mod machine;
pub mod parse;
pub mod tape;

pub use machine::{
    IntermediateStateName, Outcome, RuleAction, RuleKey, RuleLHS, RuleRHS, Rules, State, StateView,
    TuringMachine, Verdict,
};
pub use parse::{
    direction, header, header_entry_with_name, initial_tape, parser, render, rule, state, symbol, Header,
    HeaderKey, ParseError, ParseErrorKind, RawRule,
};
pub use tape::{Direction, Symbol, SymbolView, Tape, TapeView};
