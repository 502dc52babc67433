//! Editing a function: which editor opens it, and whether the edit changed it.
use vstd::prelude::*;
use crate::error::FunkyError;

verus! {

pub open spec fn str_opt_view(o: Option<&str>) -> Option<Seq<char>> {
    match o {
        Some(s) => Some(s@),
        None => None,
    }
}

pub open spec fn string_opt_view(o: Option<String>) -> Option<Seq<char>> {
    match o {
        Some(s) => Some(s@),
        None => None,
    }
}

pub open spec fn is_set(o: Option<Seq<char>>) -> bool {
    o matches Some(s) && s.len() > 0
}

/// The editor to open: the override, then a non-empty
/// `$VISUAL`, then a non-empty `$EDITOR`, then `vim`, then `nano` if
/// installed; `None` when there is none.
pub open spec fn chosen_editor(
    editor_override: Option<Seq<char>>,
    visual: Option<Seq<char>>,
    editor: Option<Seq<char>>,
    vim_installed: bool,
    nano_installed: bool,
) -> Option<Seq<char>> {
    if editor_override is Some {
        editor_override
    } else if is_set(visual) {
        visual
    } else if is_set(editor) {
        editor
    } else if vim_installed {
        Some("vim"@)
    } else if nano_installed {
        Some("nano"@)
    } else {
        None
    }
}

/// Chooses the editor (see `chosen_editor`) from the override, the values of
/// `$VISUAL` and `$EDITOR`, and whether `vim` and `nano` are installed;
/// `NoEditor` when there is none.
pub fn resolve_editor(
    editor_override: Option<&str>,
    visual: Option<String>,
    editor: Option<String>,
    vim_installed: bool,
    nano_installed: bool,
) -> (r: Result<String, FunkyError>)
    ensures
        match chosen_editor(
            str_opt_view(editor_override),
            string_opt_view(visual),
            string_opt_view(editor),
            vim_installed,
            nano_installed,
        ) {
            Some(e) => r matches Ok(s) && s@ == e,
            None => r matches Err(e) && e is NoEditor,
        },
{
    if let Some(e) = editor_override {
        return Ok(String::from_str(e));
    }
    if let Some(v) = visual {
        if !v.as_str().is_empty() {
            return Ok(v);
        }
    }
    if let Some(e) = editor {
        if !e.as_str().is_empty() {
            return Ok(e);
        }
    }
    if vim_installed {
        return Ok(String::from_str("vim"));
    }
    if nano_installed {
        return Ok(String::from_str("nano"));
    }
    Err(FunkyError::NoEditor)
}

/// The outcome of an edit: the edited text when it differs from the text
/// before editing, `None` (nothing to save) when it is the same.
pub fn edit_outcome(before: &str, edited: String) -> (r: Option<String>)
    ensures
        match r {
            Some(s) => s@ == edited@ && edited@ != before@,
            None => edited@ == before@,
        },
{
    let o = String::from_str(before);
    if edited == o {
        None
    } else {
        Some(edited)
    }
}

/// The editor is chosen in the documented order: the override when given;
/// else `$VISUAL` when set and not empty; else `$EDITOR` when set and not
/// empty, whether `$VISUAL` is unset or empty; else `vim` when installed;
/// else `nano` when installed; else none.
pub proof fn lemma_editor_priority(
    editor_override: Option<Seq<char>>,
    visual: Option<Seq<char>>,
    editor: Option<Seq<char>>,
    vim_installed: bool,
    nano_installed: bool,
)
    ensures
        ({
            let chosen = chosen_editor(editor_override, visual, editor, vim_installed, nano_installed);
            let visual_set = visual is Some && visual->0.len() > 0;
            let editor_set = editor is Some && editor->0.len() > 0;
            &&& editor_override is Some ==> chosen == editor_override
            &&& editor_override is None && visual_set ==> chosen == visual
            &&& editor_override is None && !visual_set && editor_set ==> chosen == editor
            &&& editor_override is None && !visual_set && !editor_set && vim_installed ==> chosen
                == Some("vim"@)
            &&& editor_override is None && !visual_set && !editor_set && !vim_installed
                && nano_installed ==> chosen == Some("nano"@)
            &&& editor_override is None && !visual_set && !editor_set && !vim_installed
                && !nano_installed ==> chosen is None
        }),
{
}

} // verus!
