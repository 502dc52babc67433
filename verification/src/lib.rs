//! Turn command history into reusable shell functions: the verified core of
//! funky (history parsing, command tokenizing, argument substitution, shell
//! configuration planning and function rendering).
pub mod args;
pub mod commands;
pub mod config;
pub mod error;
pub mod file;
pub mod functions;
pub mod text;
