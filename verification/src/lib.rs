//! A front end and code generator for a small stack language.
//!
//! A program is a sequence of procedures and constants whose bodies are
//! operations on an operand stack. Source text is split into words
//! ([`lexer`]), parsed into definitions ([`parser`], [`ast`]), compiled
//! into a module of functions in single-assignment form ([`codegen`],
//! [`ir`]), and handed to LLVM ([`emit`]). A module can also be checked
//! ([`validate`]) and run ([`interp`]).
//!
//! What each step does is stated mathematically: [`grammar`] says which
//! token sequences spell which program, [`generation`] what the generator
//! builds, [`semantics`] what a module computes, and [`meaning`] what
//! operations mean. The other modules prove what follows: that the parser
//! accepts what the grammar spells, that what the generator builds is well
//! formed ([`wellformed`]), that it computes what the procedures mean
//! ([`simulation`], [`faithful`]) and does not go wrong ([`progress`]), that
//! constants are compiled in place ([`inlining`]) and fail where their
//! operations fail ([`refused`]), that a body with a word that nothing
//! defines does not compile ([`undefined`]), and more ([`laws`]).

pub mod ast;
pub mod codegen;
pub mod emit;
pub mod faithful;
pub mod generation;
pub mod grammar;
pub mod inlining;
pub mod interp;
pub mod ir;
pub mod laws;
pub mod lexer;
pub mod meaning;
pub mod parser;
pub mod progress;
pub mod refused;
pub mod semantics;
pub mod simulation;
pub mod undefined;
pub mod validate;
pub mod wellformed;
