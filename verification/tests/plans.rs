use funky_lib::args::FunctionSource;
use funky_lib::commands::edit::edit_outcome;
use funky_lib::commands::init::{config_snippet, plan_rc_update};
use funky_lib::commands::list::function_names;
use funky_lib::commands::new::{command_from_history, plan_new_function, source_plan, SourcePlan};
use funky_lib::error::FunkyError;
use funky_lib::file::{dir_status, file_status};
use funky_lib::functions::repository::{check_update_target, file_name_for};
use funky_lib::functions::{FunctionSpec, Slug};

fn words(ws: &[&str]) -> Option<Vec<String>> {
    Some(ws.iter().map(|w| w.to_string()).collect())
}

fn my_func() -> FunctionSpec {
    FunctionSpec::new("my-func", "echo new".to_string(), vec![]).unwrap()
}

#[test]
fn source_plan_for_each_source() {
    assert_eq!(source_plan(FunctionSource::History, &None, false), Ok(SourcePlan::ReadHistory));
    assert_eq!(source_plan(FunctionSource::Clipboard, &None, true), Ok(SourcePlan::ReadClipboard));
    assert_eq!(source_plan(FunctionSource::StdIn, &None, true), Ok(SourcePlan::ReadStdin));
    assert_eq!(source_plan(FunctionSource::StdIn, &None, false), Err(FunkyError::NoStdinInput));
}

#[test]
fn source_plan_vargs_and_piped_fallback() {
    assert_eq!(
        source_plan(FunctionSource::Vargs, &words(&["echo", "new"]), true),
        Ok(SourcePlan::Command("echo new".to_string()))
    );
    assert_eq!(source_plan(FunctionSource::Vargs, &None, true), Ok(SourcePlan::ReadStdin));
    assert_eq!(source_plan(FunctionSource::Vargs, &None, false), Err(FunkyError::NoVargs));
}

#[test]
fn new_test_new_rejects_duplicate_without_overwrite() {
    let result = plan_new_function(&my_func(), false, true);
    assert!(result.is_err());
    assert_eq!(result.unwrap_err(), FunkyError::AlreadyExists("my-func".to_string()));
}

#[test]
fn mod_test_new_rejects_duplicate_without_overwrite() {
    let result = plan_new_function(&my_func(), false, true);
    assert!(result.is_err());
}

#[test]
fn new_test_new_allows_overwrite_when_flag_set() {
    let result = plan_new_function(&my_func(), true, true);
    assert!(result.is_ok());
}

#[test]
fn mod_test_new_allows_overwrite_when_flag_set() {
    let result = plan_new_function(&my_func(), true, true);
    assert_eq!(result.unwrap(), "my-func () {\n  echo new\n}\n\nmy-func \"$@\"\n");
}

#[test]
fn new_function_when_none_exists() {
    assert!(plan_new_function(&my_func(), false, false).is_ok());
}

#[test]
fn new_test_get_command_from_history() {
    let result = command_from_history("echo hello\necho world\n").unwrap();
    assert_eq!(result, "echo world");
}

#[test]
fn mod_test_get_command_from_history() {
    let result = command_from_history("echo hello\necho world\n").unwrap();
    assert_eq!(result, "echo world");
}

#[test]
fn test_get_dir_creates_dir() {
    assert_eq!(dir_status("/tmp/t/new_dir", false, false), Ok(true));
}

#[test]
fn test_get_dir_exists() {
    assert_eq!(dir_status("/tmp/t", true, true), Ok(false));
}

#[test]
fn test_get_dir_is_file() {
    let result = dir_status("/tmp/t/a_file", true, false);
    assert!(result.is_err());
    assert_eq!(
        result.unwrap_err().message(),
        "provided directory /tmp/t/a_file is not a directory"
    );
}

#[test]
fn test_get_file_exists() {
    assert_eq!(file_status("/tmp/t/a_file", true, false), Ok(()));
}

#[test]
fn test_get_file_not_exists() {
    let result = file_status("/tmp/t/a_file", false, false);
    assert!(result.is_err());
    assert_eq!(result.unwrap_err(), FunkyError::FileNotFound("/tmp/t/a_file".to_string()));
}

#[test]
fn test_get_file_is_dir() {
    let result = file_status("/tmp/t", true, true);
    assert!(result.is_err());
    assert_eq!(result.unwrap_err().message(), "provided file /tmp/t is a directory");
}

#[test]
fn test_list_empty_dir() {
    let result = function_names(&vec![]);
    assert!(result.is_empty());
}

#[test]
fn test_list_with_functions() {
    let files = vec!["my-func.zsh".to_string(), "other-func.zsh".to_string()];
    let mut result = function_names(&files);
    result.sort();
    assert_eq!(result, vec!["my-func", "other-func"]);
}

#[test]
fn test_list_ignores_non_zsh_files() {
    let files = vec!["my-func.zsh".to_string(), "readme.txt".to_string()];
    let result = function_names(&files);
    assert_eq!(result, vec!["my-func"]);
}

#[test]
fn test_fs_repo_update_not_found() {
    let slug = Slug::from_name("nonexistent").unwrap();
    assert!(check_update_target(false, &slug).is_err());
}

#[test]
fn test_fs_repo_update() {
    let slug = Slug::from_name("test-func").unwrap();
    assert!(check_update_target(true, &slug).is_ok());
    assert_eq!(file_name_for(&slug), "test-func.zsh");
}

#[test]
fn test_init_creates_config() {
    let snippet = config_snippet("/tmp/t/funky").unwrap();
    let contents = plan_rc_update("", &snippet).unwrap();
    assert!(contents.contains("fpath=("));
    assert!(contents.contains("autoload -Uz"));
}

#[test]
fn test_init_idempotent() {
    let snippet = config_snippet("/tmp/t/funky").unwrap();
    let contents = plan_rc_update("", &snippet).unwrap();
    assert!(plan_rc_update(&contents, &snippet).is_none());
    let count = contents.matches("autoload -Uz").count();
    assert_eq!(count, 1, "Config should only appear once");
}

#[test]
fn test_init_appends_to_existing() {
    let snippet = config_snippet("/tmp/t/funky").unwrap();
    let contents = plan_rc_update("# existing config\nexport FOO=bar\n", &snippet).unwrap();
    assert!(contents.starts_with("# existing config"));
    assert!(contents.contains("autoload -Uz"));
}

#[test]
fn test_edit_updates_function_content() {
    let result = edit_outcome("echo old", "echo old".replace("echo old", "echo new"));
    assert_eq!(result, Some("echo new".to_string()));
}

#[test]
fn test_edit_cancelled_leaves_function_unchanged() {
    let result = edit_outcome("echo original", "echo original".to_string());
    assert_eq!(result, None);
}

#[test]
fn init_snippet_text() {
    assert_eq!(
        config_snippet("/home/me/.funky").unwrap(),
        "fpath=(/home/me/.funky $fpath)\nautoload -Uz $fpath[1]/*(.:t)\n"
    );
}

#[test]
fn function_file_keeps_template_syntax_in_values() {
    let spec = FunctionSpec::new("braces", "echo '{{ x }}' {% raw %}".to_string(), vec![]).unwrap();
    assert_eq!(
        plan_new_function(&spec, false, false).unwrap(),
        "braces () {\n  echo '{{ x }}' {% raw %}\n}\n\nbraces \"$@\"\n"
    );
}

#[test]
fn ascii_slug_rule() {
    assert_eq!(Slug::from_name("My Test String!!!1!1").unwrap().as_str(), "my-test-string-1-1");
    assert_eq!(Slug::from_name("  --test_-_cool").unwrap().as_str(), "test-cool");
    assert_eq!(Slug::from_name("user@example.com").unwrap().as_str(), "user-example-com");
}
