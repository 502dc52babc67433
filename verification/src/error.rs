//! The errors of the library, and the message each one reads as.
use vstd::prelude::*;

verus! {

/// Why a funky operation was refused.
#[derive(Debug, Clone, PartialEq, Eq)]
pub enum FunkyError {
    /// `new` was given no function name.
    NameRequired,
    /// The `vargs` source was chosen but no command words were given.
    NoVargs,
    /// The history file holds no line.
    EmptyHistoryFile,
    /// Standard input held nothing but whitespace.
    NoStdinInput,
    /// The clipboard held nothing but whitespace.
    EmptyClipboard,
    /// A function of this name exists and overwriting was not asked for.
    AlreadyExists(String),
    /// `init` was asked for a shell other than zsh.
    UnsupportedShell(String),
    /// The name has no character a function name can keep.
    InvalidName(String),
    /// The functions directory path names something that is not a directory.
    NotADirectory(String),
    /// The file path names a directory.
    IsADirectory(String),
    /// The file path names nothing.
    FileNotFound(String),
    /// No function of this name exists.
    FunctionNotFound(String),
    /// No editor could be found.
    NoEditor,
    /// A typed command was empty.
    EmptyCommand,
    /// A typed function name was empty.
    EmptyName,
    /// The history file holds no command.
    NoHistoryCommands,
    /// Rendering a template failed, with the template engine's message.
    Template(String),
}

/// The message an error reads as.
pub open spec fn error_message(e: FunkyError) -> Seq<char> {
    match e {
        FunkyError::NameRequired => "Function name is required. Run interactively or pass a name."@,
        FunkyError::NoVargs => "No Vargs provided for SOURCE Vargs."@,
        FunkyError::EmptyHistoryFile => "Unable to find command from HISTORY_FILE"@,
        FunkyError::NoStdinInput => "No input received from stdin"@,
        FunkyError::EmptyClipboard => "Clipboard is empty"@,
        FunkyError::AlreadyExists(n) => "Function '"@ + n@ + "' already exists. Use --overwrite to replace it."@,
        FunkyError::UnsupportedShell(s) => "Unsupported shell: "@ + s@ + ". Only zsh is currently supported."@,
        FunkyError::InvalidName(n) => "Invalid function name: '"@ + n@ + "'"@,
        FunkyError::NotADirectory(p) => "provided directory "@ + p@ + " is not a directory"@,
        FunkyError::IsADirectory(p) => "provided file "@ + p@ + " is a directory"@,
        FunkyError::FileNotFound(p) => "file "@ + p@ + " does not exist"@,
        FunkyError::FunctionNotFound(n) => "Function '"@ + n@ + "' not found"@,
        FunkyError::NoEditor => "No editor found. Set $VISUAL or $EDITOR, or install vim/nano."@,
        FunkyError::EmptyCommand => "Command cannot be empty"@,
        FunkyError::EmptyName => "Function name cannot be empty"@,
        FunkyError::NoHistoryCommands => "No commands found in history file"@,
        FunkyError::Template(m) => m@,
    }
}

fn framed(before: &str, middle: &String, after: &str) -> (r: String)
    ensures
        r@ == before@ + middle@ + after@,
{
    let mut r = String::from_str(before);
    r.append(middle.as_str());
    r.append(after);
    r
}

impl FunkyError {
    /// The message this error reads as (see `error_message`).
    pub fn message(&self) -> (r: String)
        ensures
            r@ == error_message(*self),
    {
        match self {
            FunkyError::NameRequired => String::from_str(
                "Function name is required. Run interactively or pass a name.",
            ),
            FunkyError::NoVargs => String::from_str("No Vargs provided for SOURCE Vargs."),
            FunkyError::EmptyHistoryFile => String::from_str("Unable to find command from HISTORY_FILE"),
            FunkyError::NoStdinInput => String::from_str("No input received from stdin"),
            FunkyError::EmptyClipboard => String::from_str("Clipboard is empty"),
            FunkyError::AlreadyExists(n) => framed(
                "Function '",
                n,
                "' already exists. Use --overwrite to replace it.",
            ),
            FunkyError::UnsupportedShell(s) => framed(
                "Unsupported shell: ",
                s,
                ". Only zsh is currently supported.",
            ),
            FunkyError::InvalidName(n) => framed("Invalid function name: '", n, "'"),
            FunkyError::NotADirectory(p) => framed("provided directory ", p, " is not a directory"),
            FunkyError::IsADirectory(p) => framed("provided file ", p, " is a directory"),
            FunkyError::FileNotFound(p) => framed("file ", p, " does not exist"),
            FunkyError::FunctionNotFound(n) => framed("Function '", n, "' not found"),
            FunkyError::NoEditor => String::from_str(
                "No editor found. Set $VISUAL or $EDITOR, or install vim/nano.",
            ),
            FunkyError::EmptyCommand => String::from_str("Command cannot be empty"),
            FunkyError::EmptyName => String::from_str("Function name cannot be empty"),
            FunkyError::NoHistoryCommands => String::from_str("No commands found in history file"),
            FunkyError::Template(m) => m.clone(),
        }
    }
}

} // verus!
