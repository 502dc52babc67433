//! The interactive `new` wizard: which sources it offers, which answers it
//! accepts, and what it asks or does after each answer.
use vstd::prelude::*;
use vstd::utf8::{decode_utf8, encode_utf8};
use crate::commands::new::history::{parse_history, parsed_history};
use crate::commands::new::{
    argument_name, command_tokens, deref_tokens, lemma_tokens_from_ordered, lemma_tokens_replaceable,
    nonblank, nonblank_text, positional, replace_tokens_with_positional, replaced, replacement_items,
    suggest_name, suggested_name, token_view, token_views, tokenize_command, CommandToken,
};
use crate::error::FunkyError;
use crate::functions::{slugified, FunctionSpec, Slug};
use crate::text::string_views;

verus! {

/// Where the wizard can take the command from.
#[derive(Debug, Clone, Copy, PartialEq, Eq)]
pub enum Source {
    History,
    Clipboard,
    TypeItIn,
}

pub open spec fn source_label(s: Source) -> Seq<char> {
    match s {
        Source::History => "History (browse recent commands)"@,
        Source::Clipboard => "Clipboard"@,
        Source::TypeItIn => "Type it in"@,
    }
}

impl Source {
    /// How the source is offered to the user.
    pub fn label(&self) -> (r: String)
        ensures
            r@ == source_label(*self),
    {
        match self {
            Source::History => String::from_str("History (browse recent commands)"),
            Source::Clipboard => String::from_str("Clipboard"),
            Source::TypeItIn => String::from_str("Type it in"),
        }
    }
}

/// The sources offered, in order.
pub fn sources() -> (r: Vec<Source>)
    ensures
        r@ == seq![Source::History, Source::Clipboard, Source::TypeItIn],
{
    let mut r = Vec::new();
    r.push(Source::History);
    r.push(Source::Clipboard);
    r.push(Source::TypeItIn);
    assert(r@ =~= seq![Source::History, Source::Clipboard, Source::TypeItIn]);
    r
}

/// A typed command: its trimmed text, or `EmptyCommand` when that is empty.
pub fn typed_command(text: &str) -> (r: Result<String, FunkyError>)
    ensures
        match nonblank(text@) {
            Some(c) => r matches Ok(s) && s@ == c,
            None => r matches Err(e) && e is EmptyCommand,
        },
{
    match nonblank_text(text) {
        Some(s) => Ok(s),
        None => Err(FunkyError::EmptyCommand),
    }
}

/// A typed function name: its trimmed text, or `EmptyName` when that is empty.
pub fn typed_name(text: &str) -> (r: Result<String, FunkyError>)
    ensures
        match nonblank(text@) {
            Some(c) => r matches Ok(s) && s@ == c,
            None => r matches Err(e) && e is EmptyName,
        },
{
    match nonblank_text(text) {
        Some(s) => Ok(s),
        None => Err(FunkyError::EmptyName),
    }
}

/// The commands offered from a history file: its parsed history, or
/// `NoHistoryCommands` when that is empty.
pub fn history_choices(contents: &str) -> (r: Result<Vec<String>, FunkyError>)
    ensures
        match r {
            Ok(v) => string_views(v@) == parsed_history(contents@) && v.len() > 0,
            Err(e) => parsed_history(contents@).len() == 0 && e is NoHistoryCommands,
        },
{
    let entries = parse_history(contents);
    if entries.len() == 0 {
        Err(FunkyError::NoHistoryCommands)
    } else {
        Ok(entries)
    }
}

/// Tokens are offered for selection only when there are more than one.
pub fn offers_token_selection(tokens: &Vec<CommandToken>) -> (r: bool)
    ensures
        r == (tokens.len() > 1),
{
    tokens.len() > 1
}

/// Where the wizard stands: the answer it waits for, and what it has
/// gathered so far.
#[derive(Debug)]
pub enum Stage {
    /// Waiting for where the command is.
    Source,
    /// Waiting for the command from the chosen source.
    Command(Source),
    /// Waiting for which tokens of the command become arguments.
    Tokens { command: String },
    /// Waiting for the function's name.
    Name { command: String, arguments: Vec<String> },
    /// Waiting to learn whether a function of that name exists.
    Exists { name: String, command: String, arguments: Vec<String> },
    /// Waiting for whether the existing function may be replaced.
    Overwrite { name: String, command: String, arguments: Vec<String> },
    /// Nothing is left to ask.
    Finished,
}

/// An answer handed back to the wizard.
#[derive(Debug)]
pub enum Answer {
    /// The chosen source.
    Source(Source),
    /// The command text the source gave.
    Command(String),
    /// The positions, among the tokens offered, of those chosen; the first
    /// position given becomes `$1`, the next `$2`, and so on.
    Tokens(Vec<usize>),
    /// The name as typed.
    Name(String),
    /// Whether a function of the name exists.
    Exists(bool),
    /// Whether the existing function may be replaced.
    Overwrite(bool),
}

/// What the wizard asks for, or does, next.
#[derive(Debug)]
pub enum Action {
    /// Ask where the command is, offering these sources.
    ChooseSource(Vec<Source>),
    /// Get the command from this source.
    ReadCommand(Source),
    /// Ask which of these tokens become arguments.
    ChooseTokens(Vec<CommandToken>),
    /// Ask for the name, offering this default when it is not empty.
    AskName(String),
    /// Find out whether a function of this name exists.
    CheckExists(Slug),
    /// Ask whether the function of this name may be replaced.
    ConfirmOverwrite(String),
    /// Create this function.
    Create(FunctionSpec),
    /// Stop: the user declined.
    Cancel,
    /// Stop with this error.
    Fail(FunkyError),
    /// The answer does not fit the open question: nothing changes.
    Ignore,
}

/// The command the wizard goes on with: a typed command is trimmed and must
/// not be empty; one from the history or the clipboard is taken as it is.
pub open spec fn accepted_command(source: Source, text: Seq<char>) -> Option<Seq<char>> {
    if source is TypeItIn {
        nonblank(text)
    } else {
        Some(text)
    }
}

/// The wizard asks for the name of a function running `cmd` with the
/// arguments `args`, offering the name suggested for `cmd`.
pub open spec fn asks_name(cmd: Seq<char>, args: Seq<Seq<char>>, r: (Stage, Action)) -> bool {
    &&& r.0 matches Stage::Name { command, arguments } && command@ == cmd && string_views(arguments@) == args
    &&& r.1 matches Action::AskName(d) && d@ == suggested_name(cmd)
}

/// The wizard offers the tokens of `cmd` to choose from.
pub open spec fn asks_tokens(cmd: Seq<char>, r: (Stage, Action)) -> bool {
    &&& r.0 matches Stage::Tokens { command } && command@ == cmd
    &&& r.1 matches Action::ChooseTokens(ts) && token_views(ts@) == command_tokens(cmd)
}

/// After the command `cmd`: its tokens are offered when it has more than one,
/// otherwise the name is asked for at once.
pub open spec fn asks_after_command(cmd: Seq<char>, r: (Stage, Action)) -> bool {
    if command_tokens(cmd).len() > 1 {
        asks_tokens(cmd, r)
    } else {
        asks_name(cmd, seq![], r)
    }
}

/// Positions that name distinct tokens among `n`.
pub open spec fn valid_picks(n: int, picks: Seq<usize>) -> bool {
    &&& forall|i: int| 0 <= i < picks.len() ==> #[trigger] picks[i] < n
    &&& forall|i: int, j: int| 0 <= i < j < picks.len() ==> #[trigger] picks[i] != #[trigger] picks[j]
}

/// The replacements for the tokens of `cmd` at `picks`: the `i`-th chosen
/// token becomes the positional parameter `i + 1`.
pub open spec fn picked_items(cmd: Seq<char>, picks: Seq<usize>) -> Seq<(int, int, Seq<char>)> {
    Seq::new(
        picks.len(),
        |i: int|
            (
                command_tokens(cmd)[picks[i] as int].1,
                command_tokens(cmd)[picks[i] as int].2,
                positional((i + 1) as nat),
            ),
    )
}

/// The argument names of the tokens of `cmd` at `picks`, in order.
pub open spec fn picked_arguments(cmd: Seq<char>, picks: Seq<usize>) -> Seq<Seq<char>> {
    Seq::new(picks.len(), |i: int| argument_name(command_tokens(cmd)[picks[i] as int].0))
}

/// The command with the tokens at `picks` replaced by positional parameters.
pub open spec fn with_positionals(cmd: Seq<char>, picks: Seq<usize>) -> Seq<char> {
    decode_utf8(replaced(encode_utf8(cmd), picked_items(cmd, picks)))
}

/// The wizard ends by creating the function `name` running `command` with
/// `arguments`, or with `InvalidName` when the name has nothing a slug keeps.
pub open spec fn creates(name: Seq<char>, command: Seq<char>, arguments: Seq<Seq<char>>, r: (Stage, Action)) -> bool {
    &&& r.0 is Finished
    &&& if slugified(name).len() > 0 {
        r.1 matches Action::Create(f) && f.name@ == slugified(name) && f.command@ == command
            && string_views(f.arguments@) == arguments
    } else {
        r.1 matches Action::Fail(e) && (e matches FunkyError::InvalidName(m) && m@ == name)
    }
}

/// The stage is kept and nothing is done.
pub open spec fn ignores(stage: Stage, r: (Stage, Action)) -> bool {
    r.0 == stage && r.1 is Ignore
}

/// What the wizard does with `answer` at `stage` (see `advance`).
pub open spec fn advanced(stage: Stage, answer: Answer, r: (Stage, Action)) -> bool {
    match stage {
        Stage::Source => match answer {
            Answer::Source(s) => r.0 == Stage::Command(s) && r.1 == Action::ReadCommand(s),
            _ => ignores(stage, r),
        },
        Stage::Command(source) => match answer {
            Answer::Command(text) => match accepted_command(source, text@) {
                Some(cmd) => asks_after_command(cmd, r),
                None => r.0 is Finished && (r.1 matches Action::Fail(e) && e is EmptyCommand),
            },
            _ => ignores(stage, r),
        },
        Stage::Tokens { command } => match answer {
            Answer::Tokens(picks) => if !valid_picks(command_tokens(command@).len() as int, picks@) {
                r.0 == stage && (r.1 matches Action::ChooseTokens(ts) && token_views(ts@) == command_tokens(command@))
            } else if picks.len() == 0 {
                asks_name(command@, seq![], r)
            } else {
                asks_name(with_positionals(command@, picks@), picked_arguments(command@, picks@), r)
            },
            _ => ignores(stage, r),
        },
        Stage::Name { command, arguments } => match answer {
            Answer::Name(text) => match nonblank(text@) {
                None => r.0 is Finished && (r.1 matches Action::Fail(e) && e is EmptyName),
                Some(n) => if slugified(n).len() > 0 {
                    &&& r.0 matches Stage::Exists { name, command: c, arguments: a } && name@ == n
                        && c@ == command@ && a@ == arguments@
                    &&& r.1 matches Action::CheckExists(slug) && slug@ == slugified(n)
                } else {
                    r.0 is Finished && (r.1 matches Action::Fail(e) && (e matches FunkyError::InvalidName(m) && m@ == n))
                },
            },
            _ => ignores(stage, r),
        },
        Stage::Exists { name, command, arguments } => match answer {
            Answer::Exists(true) => {
                &&& r.0 matches Stage::Overwrite { name: n, command: c, arguments: a } && n@ == name@
                    && c@ == command@ && a@ == arguments@
                &&& r.1 matches Action::ConfirmOverwrite(m) && m@ == name@
            },
            Answer::Exists(false) => creates(name@, command@, string_views(arguments@), r),
            _ => ignores(stage, r),
        },
        Stage::Overwrite { name, command, arguments } => match answer {
            Answer::Overwrite(true) => creates(name@, command@, string_views(arguments@), r),
            Answer::Overwrite(false) => r.0 is Finished && r.1 is Cancel,
            _ => ignores(stage, r),
        },
        Stage::Finished => ignores(stage, r),
    }
}

/// The wizard's first question: where the command is.
pub fn start() -> (r: (Stage, Action))
    ensures
        r.0 is Source,
        r.1 matches Action::ChooseSource(v) && v@ == seq![Source::History, Source::Clipboard, Source::TypeItIn],
{
    (Stage::Source, Action::ChooseSource(sources()))
}

fn after_command(cmd: String) -> (r: (Stage, Action))
    ensures
        asks_after_command(cmd@, r),
{
    let tokens = tokenize_command(cmd.as_str());
    assert(token_views(tokens@).len() == tokens@.len());
    if offers_token_selection(&tokens) {
        (Stage::Tokens { command: cmd }, Action::ChooseTokens(tokens))
    } else {
        let d = suggest_name(cmd.as_str());
        let arguments: Vec<String> = Vec::new();
        assert(string_views(arguments@) =~= Seq::<Seq<char>>::empty());
        (Stage::Name { command: cmd, arguments }, Action::AskName(d))
    }
}

fn picks_are_valid(picks: &Vec<usize>, n: usize) -> (b: bool)
    ensures
        b == valid_picks(n as int, picks@),
{
    let mut i: usize = 0;
    while i < picks.len()
        invariant
            i <= picks.len(),
            forall|a: int| 0 <= a < i ==> #[trigger] picks@[a] < n,
            forall|a: int, c: int| 0 <= a < c < i ==> #[trigger] picks@[a] != #[trigger] picks@[c],
        decreases picks.len() - i,
    {
        if picks[i] >= n {
            return false;
        }
        let mut j: usize = 0;
        while j < i
            invariant
                j <= i < picks.len(),
                forall|a: int| 0 <= a < j ==> #[trigger] picks@[a] != picks@[i as int],
            decreases i - j,
        {
            if picks[j] == picks[i] {
                return false;
            }
            j = j + 1;
        }
        i = i + 1;
    }
    true
}

fn with_chosen_tokens(command: String, picks: Vec<usize>) -> (r: (Stage, Action))
    ensures
        if !valid_picks(command_tokens(command@).len() as int, picks@) {
            r.0 == Stage::Tokens { command } && (r.1 matches Action::ChooseTokens(ts) && token_views(ts@)
                == command_tokens(command@))
        } else if picks.len() == 0 {
            asks_name(command@, seq![], r)
        } else {
            asks_name(with_positionals(command@, picks@), picked_arguments(command@, picks@), r)
        },
{
    let tokens = tokenize_command(command.as_str());
    let ghost ts = command_tokens(command@);
    assert(token_views(tokens@).len() == tokens@.len());
    if !picks_are_valid(&picks, tokens.len()) {
        return (Stage::Tokens { command }, Action::ChooseTokens(tokens));
    }
    if picks.len() == 0 {
        let d = suggest_name(command.as_str());
        let arguments: Vec<String> = Vec::new();
        assert(string_views(arguments@) =~= Seq::<Seq<char>>::empty());
        return (Stage::Name { command, arguments }, Action::AskName(d));
    }
    let mut selected: Vec<&CommandToken> = Vec::new();
    let mut i: usize = 0;
    while i < picks.len()
        invariant
            i <= picks.len(),
            tokens@.len() == ts.len(),
            valid_picks(tokens@.len() as int, picks@),
            selected@.len() == i,
            forall|k: int| 0 <= k < i ==> *(#[trigger] selected@[k]) == tokens@[picks@[k] as int],
        decreases picks.len() - i,
    {
        selected.push(&tokens[picks[i]]);
        i = i + 1;
    }
    let ghost sel = deref_tokens(selected@);
    proof {
        assert forall|k: int| 0 <= k < tokens@.len() implies token_view(#[trigger] tokens@[k]) == ts[k] by {
            assert(token_views(tokens@)[k] == token_view(tokens@[k]));
        }
        lemma_tokens_from_ordered(command@, 0);
        assert forall|a: int| 0 <= a < sel.len() implies ts.contains(token_view(#[trigger] sel[a])) by {
            assert(sel[a] == tokens@[picks@[a] as int]);
            assert(ts[picks@[a] as int] == token_view(sel[a]));
        }
        assert forall|a: int, c: int| 0 <= a < c < sel.len() implies token_view(#[trigger] sel[a])
            != token_view(#[trigger] sel[c]) by {
            let pa = picks@[a] as int;
            let pc = picks@[c] as int;
            assert(sel[a] == tokens@[pa]);
            assert(sel[c] == tokens@[pc]);
            assert(pa != pc);
            if pa < pc {
                assert(ts[pa].2 < ts[pc].1);
            } else {
                assert(ts[pc].2 < ts[pa].1);
            }
        }
        lemma_tokens_replaceable(command@, sel);
        assert(replacement_items(sel) =~= picked_items(command@, picks@)) by {
            assert forall|a: int| 0 <= a < sel.len() implies #[trigger] replacement_items(sel)[a]
                == picked_items(command@, picks@)[a] by {
                assert(sel[a] == tokens@[picks@[a] as int]);
                assert(ts[picks@[a] as int] == token_view(sel[a]));
            }
        }
    }
    let (modified, arguments) = replace_tokens_with_positional(command.as_str(), selected.as_slice());
    proof {
        assert(string_views(arguments@) =~= picked_arguments(command@, picks@)) by {
            assert forall|a: int| 0 <= a < picks@.len() implies #[trigger] string_views(arguments@)[a]
                == picked_arguments(command@, picks@)[a] by {
                assert(selected@[a].value@ == sel[a].value@);
                assert(sel[a] == tokens@[picks@[a] as int]);
                assert(ts[picks@[a] as int] == token_view(sel[a]));
            }
        }
    }
    let d = suggest_name(modified.as_str());
    (Stage::Name { command: modified, arguments }, Action::AskName(d))
}

fn create_step(name: String, command: String, arguments: Vec<String>) -> (r: (Stage, Action))
    ensures
        creates(name@, command@, string_views(arguments@), r),
{
    match FunctionSpec::new(name.as_str(), command, arguments) {
        Ok(f) => (Stage::Finished, Action::Create(f)),
        Err(e) => (Stage::Finished, Action::Fail(e)),
    }
}

/// Hands `answer` to the wizard at `stage`: the next stage, and what to ask
/// or do (see `advanced`). A typed command or name is trimmed and must not be
/// empty; the tokens of a command are offered only when it has more than one,
/// and a choice that does not name distinct tokens is asked again; chosen
/// tokens become positional parameters in the order their positions are
/// given; the name offered is the one suggested for the command; a function
/// that exists is replaced only when the user agrees. An answer that does not fit the
/// stage changes nothing.
pub fn advance(stage: Stage, answer: Answer) -> (r: (Stage, Action))
    ensures
        advanced(stage, answer, r),
{
    match stage {
        Stage::Source => match answer {
            Answer::Source(s) => (Stage::Command(s), Action::ReadCommand(s)),
            _ => (Stage::Source, Action::Ignore),
        },
        Stage::Command(source) => match answer {
            Answer::Command(text) => {
                let accepted = match source {
                    Source::TypeItIn => typed_command(text.as_str()),
                    _ => Ok(text),
                };
                match accepted {
                    Ok(cmd) => after_command(cmd),
                    Err(e) => (Stage::Finished, Action::Fail(e)),
                }
            },
            _ => (Stage::Command(source), Action::Ignore),
        },
        Stage::Tokens { command } => match answer {
            Answer::Tokens(picks) => with_chosen_tokens(command, picks),
            _ => (Stage::Tokens { command }, Action::Ignore),
        },
        Stage::Name { command, arguments } => match answer {
            Answer::Name(text) => match typed_name(text.as_str()) {
                Err(e) => (Stage::Finished, Action::Fail(e)),
                Ok(name) => match Slug::from_name(name.as_str()) {
                    Err(e) => (Stage::Finished, Action::Fail(e)),
                    Ok(slug) => (Stage::Exists { name, command, arguments }, Action::CheckExists(slug)),
                },
            },
            _ => (Stage::Name { command, arguments }, Action::Ignore),
        },
        Stage::Exists { name, command, arguments } => match answer {
            Answer::Exists(exists) => if exists {
                let question = name.clone();
                (Stage::Overwrite { name, command, arguments }, Action::ConfirmOverwrite(question))
            } else {
                create_step(name, command, arguments)
            },
            _ => (Stage::Exists { name, command, arguments }, Action::Ignore),
        },
        Stage::Overwrite { name, command, arguments } => match answer {
            Answer::Overwrite(agreed) => if agreed {
                create_step(name, command, arguments)
            } else {
                (Stage::Finished, Action::Cancel)
            },
            _ => (Stage::Overwrite { name, command, arguments }, Action::Ignore),
        },
        Stage::Finished => (Stage::Finished, Action::Ignore),
    }
}

/// The wizard never writes over an existing function unasked: it creates a
/// function only when told that none of its name exists, or when the user
/// agreed to replace the one that does.
pub proof fn lemma_wizard_creates_only_with_consent(stage: Stage, answer: Answer, r: (Stage, Action))
    requires
        advanced(stage, answer, r),
        r.1 is Create,
    ensures
        (stage is Exists && answer == Answer::Exists(false)) || (stage is Overwrite && answer
            == Answer::Overwrite(true)),
{
}

/// Declining to replace an existing function ends the wizard with nothing
/// created.
pub proof fn lemma_wizard_decline_cancels(name: String, command: String, arguments: Vec<String>, r: (Stage, Action))
    requires
        advanced(Stage::Overwrite { name, command, arguments }, Answer::Overwrite(false), r),
    ensures
        r.0 is Finished,
        r.1 is Cancel,
{
}

} // verus!
