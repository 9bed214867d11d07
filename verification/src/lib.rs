//! The parser and the decision logic of a small Unix shell.
#![allow(non_camel_case_types)]

pub mod lexer;
pub mod command;
pub mod parser;
pub mod runner;
pub mod shell;
pub mod process;
