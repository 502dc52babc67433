//! Rendering a function as an autoloadable zsh function file.
use vstd::prelude::*;
use crate::error::FunkyError;
use crate::functions::FunctionSpec;

verus! {

/// The template of a zsh function file: the function, then a call of it with
/// the file's arguments, as zsh's autoload expects.
pub const ZSH_FUNCTION_TEMPLATE: &'static str = "{{ name }} () {\n  {{ command }}\n}\n\n{{ name }} \"$@\"\n";

/// The zsh function file of the function `name` running `command`: the
/// function template with both placeholders filled in.
pub open spec fn zsh_function_text(name: Seq<char>, command: Seq<char>) -> Seq<char> {
    name + " () {\n  "@ + command + "\n}\n\n"@ + name + " \"$@\"\n"@
}

/// `tera::Tera::one_off` on the function template, with `name` and `command`
/// in the context and autoescaping off. The template calls no function and
/// uses no filter, and both of its variables are given, so Tera renders it:
/// each `{{ .. }}` becomes the text of its variable, as it is, and the rest
/// of the template is copied.
#[verifier::external_body]
fn render_function_template(template: &str, name: &str, command: &str) -> (r: Result<String, String>)
    requires
        template@ == ZSH_FUNCTION_TEMPLATE@,
    ensures
        r is Ok,
        r->Ok_0@ == zsh_function_text(name@, command@),
{
    let mut context = tera::Context::new();
    context.insert("name", name);
    context.insert("command", command);
    match tera::Tera::one_off(template, &context, false) {
        Ok(s) => Ok(s),
        Err(e) => Err(e.to_string()),
    }
}

/// The text of the zsh function file for `spec`: the function template
/// rendered with its name and command (see `zsh_function_text`).
pub fn render_function_body(spec: &FunctionSpec) -> (r: Result<String, FunkyError>)
    ensures
        r matches Ok(s) && s@ == zsh_function_text(spec.name@, spec.command@),
{
    proof {
        reveal_strlit("{{ name }} () {\n  {{ command }}\n}\n\n{{ name }} \"$@\"\n");
    }
    match render_function_template(ZSH_FUNCTION_TEMPLATE, spec.name.as_str(), spec.command.as_str()) {
        Ok(s) => Ok(s),
        Err(m) => Err(FunkyError::Template(m)),
    }
}

} // verus!
