use funky_lib::commands::new::history::parse_history;
use funky_lib::commands::new::interactive::history_choices;

#[test]
fn test_parse_plain_format() {
    let contents = "echo hello\nls -la\ngit status\n";

    assert_eq!(
        parse_history(contents),
        vec![
            "git status".to_string(),
            "ls -la".to_string(),
            "echo hello".to_string(),
        ]
    );
}

#[test]
fn test_parse_extended_format() {
    let contents = ": 1234567890:0;echo hello\n: 1234567891:0;ls -la\n: 1234567892:0;git status\n";

    assert_eq!(
        parse_history(contents),
        vec![
            "git status".to_string(),
            "ls -la".to_string(),
            "echo hello".to_string(),
        ]
    );
}

#[test]
fn test_parse_mixed_format() {
    let contents = "echo hello\n: 1234567891:0;ls -la\ngit status\n";

    assert_eq!(
        parse_history(contents),
        vec![
            "git status".to_string(),
            "ls -la".to_string(),
            "echo hello".to_string(),
        ]
    );
}

#[test]
fn test_deduplication() {
    let contents = "echo hello\nls -la\necho hello\ngit status\nls -la\n";

    assert_eq!(
        parse_history(contents),
        vec![
            "ls -la".to_string(),
            "git status".to_string(),
            "echo hello".to_string(),
        ]
    );
}

#[test]
fn test_ordering_most_recent_first() {
    let contents = "first\nsecond\nthird\n";

    assert_eq!(
        parse_history(contents),
        vec![
            "third".to_string(),
            "second".to_string(),
            "first".to_string(),
        ]
    );
}

#[test]
fn test_empty_file() {
    assert!(parse_history("").is_empty());
}

#[test]
fn test_whitespace_only() {
    assert!(parse_history("  \n\t\n  ").is_empty());
}

#[test]
fn test_limit_200() {
    let contents = (0..300)
        .map(|i| format!("command-{i}"))
        .collect::<Vec<_>>()
        .join("\n");

    let parsed = parse_history(&contents);

    assert_eq!(parsed.len(), 200);
    assert_eq!(parsed.first(), Some(&"command-299".to_string()));
    assert_eq!(parsed.last(), Some(&"command-100".to_string()));
}

#[test]
fn test_multiline_extended_command() {
    let contents = ": 1234567890:0;echo hello\\\n  world\n: 1234567891:0;ls -la\n";

    assert_eq!(
        parse_history(contents),
        vec!["ls -la".to_string(), "echo hello\\\n  world".to_string(),]
    );
}

#[test]
fn test_trims_commands_and_skips_empty_entries() {
    let contents = "  echo hello  \n\n: 1234567891:0;  ls -la  \n   \n";

    assert_eq!(
        parse_history(contents),
        vec!["ls -la".to_string(), "echo hello".to_string(),]
    );
}

#[test]
fn history_crlf_line_endings_are_stripped() {
    assert_eq!(
        parse_history("echo one\r\necho two\r\n"),
        vec!["echo two".to_string(), "echo one".to_string()]
    );
}

#[test]
fn history_continuation_by_leading_whitespace() {
    // a line starting with whitespace continues an open extended command
    let contents = ": 1:0;for x in a b\n  do echo $x; done\nls\n";
    assert_eq!(
        parse_history(contents),
        vec!["ls".to_string(), "for x in a b\n  do echo $x; done".to_string()]
    );
}

#[test]
fn history_plain_line_closes_extended_command() {
    let contents = ": 1:0;echo one\necho two\n";
    assert_eq!(
        parse_history(contents),
        vec!["echo two".to_string(), "echo one".to_string()]
    );
}

#[test]
fn history_malformed_extended_lines_are_plain() {
    // missing elapsed time, non-digit timestamp, no ';'
    let contents = ": 12:;echo a\n: x1:0;echo b\n: 1:0 echo c\n";
    assert_eq!(
        parse_history(contents),
        vec![
            ": 1:0 echo c".to_string(),
            ": x1:0;echo b".to_string(),
            ": 12:;echo a".to_string(),
        ]
    );
}

#[test]
fn history_spaces_after_colon_are_allowed() {
    assert_eq!(parse_history(":    5:10;make test"), vec!["make test".to_string()]);
}

#[test]
fn history_no_final_newline() {
    assert_eq!(parse_history("a\nb"), vec!["b".to_string(), "a".to_string()]);
}

#[test]
fn history_duplicates_keep_most_recent_position() {
    let contents = "a\nb\na\n";
    assert_eq!(parse_history(contents), vec!["a".to_string(), "b".to_string()]);
}

#[test]
fn history_limit_counts_distinct_commands() {
    let mut lines = Vec::new();
    for i in 0..250 {
        lines.push(format!("c{}", i % 220));
    }
    let parsed = parse_history(&lines.join("\n"));
    assert_eq!(parsed.len(), 200);
    assert_eq!(parsed[0], "c29");
}

#[test]
fn history_choices_empty_history_is_an_error() {
    assert!(history_choices("  \n").is_err());
    assert_eq!(history_choices("ls\n").unwrap(), vec!["ls".to_string()]);
}
