//! The command line in the layout of the configuration module: the
//! subcommand is `Sub`, and `new` takes the same arguments as `crate::args`.
use vstd::prelude::*;
use crate::args::NewArgs;

verus! {

/// The whole command line: the functions directory and the subcommand.
#[derive(Debug, Clone)]
pub struct Args {
    pub funky_dir: String,
    pub command: Sub,
}

/// The subcommands.
#[derive(Debug, Clone)]
pub enum Sub {
    Init { shell: String, completion: bool, rc_file: String },
    New(NewArgs),
    List,
    Edit,
}

} // verus!
