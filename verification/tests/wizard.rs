use funky_lib::commands::new::interactive::{advance, start, Action, Answer, Source, Stage};
use funky_lib::error::FunkyError;

fn token_values(action: &Action) -> Vec<String> {
    match action {
        Action::ChooseTokens(tokens) => tokens.iter().map(|t| t.value.clone()).collect(),
        other => panic!("expected a token choice, got {:?}", other),
    }
}

fn name_stage() -> Stage {
    Stage::Name { command: "docker compose $1".to_string(), arguments: vec!["up".to_string()] }
}

fn exists_stage() -> Stage {
    Stage::Exists {
        name: "Deploy It".to_string(),
        command: "docker compose $1".to_string(),
        arguments: vec!["up".to_string()],
    }
}

#[test]
fn wizard_starts_by_asking_for_the_source() {
    let (stage, action) = start();
    assert!(matches!(stage, Stage::Source));
    match action {
        Action::ChooseSource(sources) => {
            assert_eq!(sources, vec![Source::History, Source::Clipboard, Source::TypeItIn])
        }
        other => panic!("unexpected {:?}", other),
    }
}

#[test]
fn wizard_reads_from_the_chosen_source() {
    let (stage, action) = advance(Stage::Source, Answer::Source(Source::Clipboard));
    assert!(matches!(stage, Stage::Command(Source::Clipboard)));
    assert!(matches!(action, Action::ReadCommand(Source::Clipboard)));
}

#[test]
fn wizard_offers_tokens_of_a_typed_command() {
    let (stage, action) =
        advance(Stage::Command(Source::TypeItIn), Answer::Command("  docker compose up -d ".to_string()));
    match &stage {
        Stage::Tokens { command } => assert_eq!(command, "docker compose up -d"),
        other => panic!("unexpected {:?}", other),
    }
    assert_eq!(token_values(&action), vec!["docker", "compose", "up"]);
}

#[test]
fn wizard_history_command_is_taken_as_it_is() {
    let (stage, _) = advance(Stage::Command(Source::History), Answer::Command(" ls  -la".to_string()));
    match stage {
        Stage::Tokens { command } => assert_eq!(command, " ls  -la"),
        Stage::Name { command, .. } => assert_eq!(command, " ls  -la"),
        other => panic!("unexpected {:?}", other),
    }
}

#[test]
fn wizard_single_token_command_goes_to_the_name() {
    let (stage, action) =
        advance(Stage::Command(Source::TypeItIn), Answer::Command("htop".to_string()));
    match stage {
        Stage::Name { command, arguments } => {
            assert_eq!(command, "htop");
            assert!(arguments.is_empty());
        }
        other => panic!("unexpected {:?}", other),
    }
    match action {
        Action::AskName(default) => assert_eq!(default, "htop"),
        other => panic!("unexpected {:?}", other),
    }
}

#[test]
fn wizard_empty_typed_command_fails() {
    let (stage, action) = advance(Stage::Command(Source::TypeItIn), Answer::Command("  ".to_string()));
    assert!(matches!(stage, Stage::Finished));
    assert!(matches!(action, Action::Fail(FunkyError::EmptyCommand)));
}

#[test]
fn wizard_chosen_tokens_become_positionals() {
    let stage = Stage::Tokens { command: "curl -X POST https://api.example.com/endpoint".to_string() };
    let (stage, action) = advance(stage, Answer::Tokens(vec![1, 2]));
    match stage {
        Stage::Name { command, arguments } => {
            assert_eq!(command, "curl -X $1 $2");
            assert_eq!(arguments, vec!["post", "https___api_example_com_endpoi"]);
        }
        other => panic!("unexpected {:?}", other),
    }
    match action {
        Action::AskName(default) => assert_eq!(default, "curl"),
        other => panic!("unexpected {:?}", other),
    }
}

#[test]
fn wizard_no_tokens_chosen_keeps_the_command() {
    let stage = Stage::Tokens { command: "docker compose up".to_string() };
    let (stage, action) = advance(stage, Answer::Tokens(vec![]));
    match stage {
        Stage::Name { command, arguments } => {
            assert_eq!(command, "docker compose up");
            assert!(arguments.is_empty());
        }
        other => panic!("unexpected {:?}", other),
    }
    assert!(matches!(action, Action::AskName(ref d) if d == "docker"));
}

#[test]
fn wizard_invalid_token_choice_is_asked_again() {
    for picks in [vec![3], vec![0, 0]] {
        let stage = Stage::Tokens { command: "docker compose up".to_string() };
        let (stage, action) = advance(stage, Answer::Tokens(picks));
        assert!(matches!(stage, Stage::Tokens { ref command } if command == "docker compose up"));
        assert_eq!(token_values(&action), vec!["docker", "compose", "up"]);
    }
}

#[test]
fn wizard_name_is_checked_for_an_existing_function() {
    let (stage, action) = advance(name_stage(), Answer::Name("  Deploy It ".to_string()));
    match stage {
        Stage::Exists { name, command, arguments } => {
            assert_eq!(name, "Deploy It");
            assert_eq!(command, "docker compose $1");
            assert_eq!(arguments, vec!["up"]);
        }
        other => panic!("unexpected {:?}", other),
    }
    match action {
        Action::CheckExists(slug) => assert_eq!(slug.as_str(), "deploy-it"),
        other => panic!("unexpected {:?}", other),
    }
}

#[test]
fn wizard_rejects_empty_and_invalid_names() {
    let (_, action) = advance(name_stage(), Answer::Name(" ".to_string()));
    assert!(matches!(action, Action::Fail(FunkyError::EmptyName)));
    let (stage, action) = advance(name_stage(), Answer::Name("!!!".to_string()));
    assert!(matches!(stage, Stage::Finished));
    assert!(matches!(action, Action::Fail(FunkyError::InvalidName(ref n)) if n == "!!!"));
}

#[test]
fn wizard_creates_a_new_function() {
    let (stage, action) = advance(exists_stage(), Answer::Exists(false));
    assert!(matches!(stage, Stage::Finished));
    match action {
        Action::Create(spec) => {
            assert_eq!(spec.name.as_str(), "deploy-it");
            assert_eq!(spec.command, "docker compose $1");
            assert_eq!(spec.arguments, vec!["up"]);
        }
        other => panic!("unexpected {:?}", other),
    }
}

#[test]
fn wizard_asks_before_replacing() {
    let (stage, action) = advance(exists_stage(), Answer::Exists(true));
    assert!(matches!(action, Action::ConfirmOverwrite(ref n) if n == "Deploy It"));
    assert!(matches!(stage, Stage::Overwrite { .. }));
    let (stage, action) = advance(stage, Answer::Overwrite(false));
    assert!(matches!(stage, Stage::Finished));
    assert!(matches!(action, Action::Cancel));
    let overwrite = Stage::Overwrite {
        name: "deploy".to_string(),
        command: "echo hi".to_string(),
        arguments: vec![],
    };
    let (_, action) = advance(overwrite, Answer::Overwrite(true));
    assert!(matches!(action, Action::Create(ref spec) if spec.name.as_str() == "deploy"));
}

#[test]
fn wizard_ignores_answers_that_do_not_fit() {
    let (stage, action) = advance(Stage::Source, Answer::Name("x".to_string()));
    assert!(matches!(stage, Stage::Source));
    assert!(matches!(action, Action::Ignore));
    let (stage, action) = advance(Stage::Finished, Answer::Exists(true));
    assert!(matches!(stage, Stage::Finished));
    assert!(matches!(action, Action::Ignore));
}
