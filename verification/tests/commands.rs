use funky_lib::args::{FunctionSource, NewArgs};
use funky_lib::commands::edit::{edit_outcome, resolve_editor};
use funky_lib::commands::init::{check_shell, config_snippet, plan_rc_update};
use funky_lib::commands::list::function_names;
use funky_lib::commands::new::interactive::{sources, typed_command, typed_name, Source};
use funky_lib::commands::new::{
    check_overwrite, command_from_clipboard, command_from_history, command_from_stdin,
    command_from_vargs, required_name,
};
use funky_lib::error::FunkyError;
use funky_lib::functions::repository::{check_update_target, file_name_for, FileSystemRepository};
use funky_lib::functions::zsh::render_function_body;
use funky_lib::functions::{FunctionSpec, Slug};
use std::path::PathBuf;

fn new_args(name: Option<&str>, function: Option<Vec<&str>>) -> NewArgs {
    NewArgs {
        name: name.map(|s| s.to_string()),
        source: FunctionSource::Vargs,
        history_file: String::new(),
        overwrite: false,
        function: function.map(|v| v.into_iter().map(|s| s.to_string()).collect()),
    }
}

#[test]
fn test_new_requires_name() {
    let args = new_args(None, Some(vec!["echo", "hi"]));
    let result = required_name(&args);
    assert!(result.is_err());
    assert_eq!(result.unwrap_err(), FunkyError::NameRequired);
}

#[test]
fn required_name_given() {
    let args = new_args(Some("my-func"), None);
    assert_eq!(required_name(&args).unwrap(), "my-func");
}

#[test]
fn mod_test_read_command_from_reader() {
    let result = command_from_stdin("echo hello world\n").unwrap();
    assert_eq!(result, "echo hello world");
}

#[test]
fn new_test_read_command_from_reader() {
    let result = command_from_stdin("echo hello world\n").unwrap();
    assert_eq!(result, "echo hello world");
}

#[test]
fn stdin_and_clipboard_reject_blank_text() {
    assert_eq!(command_from_stdin(" \n\t").unwrap_err(), FunkyError::NoStdinInput);
    assert_eq!(command_from_clipboard("").unwrap_err(), FunkyError::EmptyClipboard);
    assert_eq!(command_from_clipboard("  ls -la \n").unwrap(), "ls -la");
}

#[test]
fn history_source_takes_the_last_line() {
    assert_eq!(command_from_history("echo hello\necho world\n").unwrap(), "echo world");
    assert_eq!(command_from_history("a\n\n").unwrap(), "");
    assert_eq!(command_from_history("").unwrap_err(), FunkyError::EmptyHistoryFile);
}

#[test]
fn vargs_are_joined_with_spaces() {
    let words = Some(vec!["kubectl".to_string(), "apply".to_string(), "-f".to_string(), "x/".to_string()]);
    assert_eq!(command_from_vargs(&words).unwrap(), "kubectl apply -f x/");
    assert_eq!(command_from_vargs(&None).unwrap_err(), FunkyError::NoVargs);
    assert_eq!(command_from_vargs(&Some(vec![])).unwrap(), "");
}

#[test]
fn duplicates_rejected_unless_overwrite() {
    let slug = Slug::from_name("my-func").unwrap();
    let err = check_overwrite(false, true, &slug).unwrap_err();
    assert_eq!(err, FunkyError::AlreadyExists("my-func".to_string()));
    assert_eq!(
        err.message(),
        "Function 'my-func' already exists. Use --overwrite to replace it."
    );
    assert!(check_overwrite(true, true, &slug).is_ok());
    assert!(check_overwrite(false, false, &slug).is_ok());
}

#[test]
fn slugs_of_names() {
    assert_eq!(Slug::from_name("Test Func").unwrap().as_str(), "test-func");
    assert_eq!(
        Slug::from_name("!!!").unwrap_err(),
        FunkyError::InvalidName("!!!".to_string())
    );
}

#[test]
fn test_zsh_create() {
    let spec = FunctionSpec::new("Test Func", "echo 'hello world'".to_string(), vec![]).unwrap();
    let body = render_function_body(&spec).unwrap();
    assert!(body.contains("test-func"));
    assert!(body.contains("echo 'hello world'"));
}

#[test]
fn zsh_function_file_text() {
    let spec = FunctionSpec::new("deploy", "kubectl apply -f manifests/".to_string(), vec![]).unwrap();
    assert_eq!(
        render_function_body(&spec).unwrap(),
        "deploy () {\n  kubectl apply -f manifests/\n}\n\ndeploy \"$@\"\n"
    );
}

#[test]
fn test_init_unsupported_shell() {
    let result = check_shell("bash");
    assert!(result.is_err());
    assert!(result.unwrap_err().message().contains("Unsupported shell"));
    assert!(check_shell("zsh").is_ok());
}

#[test]
fn init_snippet_mentions_the_directory() {
    let snippet = config_snippet("/home/me/.funky").unwrap();
    assert!(snippet.contains("fpath=("));
    assert!(snippet.contains("/home/me/.funky"));
    assert!(snippet.contains("autoload -Uz"));
}

#[test]
fn init_appends_then_is_idempotent() {
    let snippet = config_snippet("/f").unwrap();
    let first = plan_rc_update("# existing config\nexport FOO=bar", &snippet).unwrap();
    assert!(first.starts_with("# existing config\nexport FOO=bar\n"));
    assert!(first.ends_with(&snippet));
    assert_eq!(first.matches("autoload -Uz").count(), 1);
    assert!(plan_rc_update(&first, &snippet).is_none());
}

#[test]
fn init_into_empty_rc_file() {
    assert_eq!(plan_rc_update("", "x\n").unwrap(), "x\n");
    assert_eq!(plan_rc_update("a\n", "x\n").unwrap(), "a\nx\n");
}

#[test]
fn editor_resolution_order() {
    let s = |x: &str| Some(x.to_string());
    assert_eq!(resolve_editor(Some("code --wait"), s("vi"), s("ed"), true, true).unwrap(), "code --wait");
    assert_eq!(resolve_editor(None, s("vi"), s("ed"), true, true).unwrap(), "vi");
    assert_eq!(resolve_editor(None, s(""), s("ed"), true, true).unwrap(), "ed");
    assert_eq!(resolve_editor(None, None, s(""), true, true).unwrap(), "vim");
    assert_eq!(resolve_editor(None, None, None, false, true).unwrap(), "nano");
    assert_eq!(resolve_editor(None, None, None, false, false).unwrap_err(), FunkyError::NoEditor);
}

#[test]
fn edit_outcome_detects_change() {
    assert_eq!(edit_outcome("echo old", "echo new".to_string()), Some("echo new".to_string()));
    assert_eq!(edit_outcome("echo old", "echo old".to_string()), None);
}

#[test]
fn list_keeps_zsh_files_only() {
    let names = vec![
        "my-func.zsh".to_string(),
        "readme.txt".to_string(),
        ".zsh".to_string(),
        "other-func.zsh".to_string(),
        "zsh".to_string(),
    ];
    assert_eq!(function_names(&names), vec!["my-func".to_string(), "other-func".to_string()]);
}

#[test]
fn repository_file_names() {
    let slug = Slug::from_name("test-func").unwrap();
    assert_eq!(file_name_for(&slug), "test-func.zsh");
    let repo = FileSystemRepository::new(PathBuf::from("/tmp/x"));
    assert_eq!(repo.base_path(), &PathBuf::from("/tmp/x"));
    assert_eq!(
        check_update_target(false, &slug).unwrap_err().message(),
        "Function 'test-func' not found"
    );
    assert!(check_update_target(true, &slug).is_ok());
}

#[test]
fn wizard_answers() {
    assert_eq!(typed_command("  ls  ").unwrap(), "ls");
    assert_eq!(typed_command(" ").unwrap_err(), FunkyError::EmptyCommand);
    assert_eq!(typed_name("").unwrap_err(), FunkyError::EmptyName);
    let labels: Vec<String> = sources().iter().map(|s| s.label()).collect();
    assert_eq!(labels, vec!["History (browse recent commands)", "Clipboard", "Type it in"]);
    assert_eq!(Source::Clipboard.label(), "Clipboard");
}
