//! The command line of funky, as plain values.
use vstd::prelude::*;

verus! {

/// The whole command line: the functions directory and the subcommand.
#[derive(Debug, Clone)]
pub struct Args {
    /// Where function files are kept (default `~/.funky/`, env `FUNKY_DIR`).
    pub funky_dir: String,
    pub command: Command,
}

/// The subcommands.
#[derive(Debug, Clone)]
pub enum Command {
    /// Configure a shell (default `zsh`) through its rc file (default `~/.zshrc`).
    Init { shell: String, completion: bool, rc_file: String },
    /// Create a function.
    New(NewArgs),
    /// List the functions.
    List,
    /// Open a function in an editor.
    Edit(EditArgs),
}

/// The arguments of `new`.
#[derive(Debug, Clone)]
pub struct NewArgs {
    /// The function's name; without one, `new` runs interactively.
    pub name: Option<String>,
    /// Where the command comes from (default `vargs`).
    pub source: FunctionSource,
    /// The history file read for `--from history` (env `HISTFILE`, default
    /// `~/.zsh_history`).
    pub history_file: String,
    /// Replace a function of the same name without asking.
    pub overwrite: bool,
    /// The command words given after `--`.
    pub function: Option<Vec<String>>,
}

/// The arguments of `edit`.
#[derive(Debug, Clone)]
pub struct EditArgs {
    /// The function to edit.
    pub name: Option<String>,
    /// The editor to use instead of the one resolved from the environment.
    pub editor: Option<String>,
}

/// Where the command of a new function comes from.
#[derive(Debug, Clone, Copy, PartialEq, Eq)]
pub enum FunctionSource {
    /// The last line of the history file.
    History,
    /// Standard input.
    StdIn,
    /// The system clipboard.
    Clipboard,
    /// The command words after `--`.
    Vargs,
}

} // verus!
