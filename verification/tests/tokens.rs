use funky_lib::text::char_is_whitespace;
use funky_lib::commands::new::{replace_tokens_with_positional, suggest_name, tokenize_command};

#[test]
fn test_tokenize_command_skips_flags() {
    let tokens = tokenize_command("docker compose up -d");
    let values: Vec<&str> = tokens.iter().map(|t| t.value.as_str()).collect();
    assert_eq!(values, vec!["docker", "compose", "up"]);
}

#[test]
fn test_tokenize_command_skips_operators() {
    let tokens = tokenize_command("echo hello | grep world");
    let values: Vec<&str> = tokens.iter().map(|t| t.value.as_str()).collect();
    assert_eq!(values, vec!["echo", "hello", "grep", "world"]);
}

#[test]
fn test_tokenize_command_skips_env_assignments() {
    let tokens = tokenize_command("FOO=bar python script.py");
    let values: Vec<&str> = tokens.iter().map(|t| t.value.as_str()).collect();
    assert_eq!(values, vec!["python", "script.py"]);
}

#[test]
fn test_tokenize_command_preserves_offsets() {
    let cmd = "docker compose up";
    let tokens = tokenize_command(cmd);
    assert_eq!(tokens[2].value, "up");
    assert_eq!(&cmd[tokens[2].start..tokens[2].end], "up");
}

#[test]
fn test_replace_tokens_single() {
    let cmd = "docker compose up";
    let tokens = tokenize_command(cmd);
    let up_token = tokens.iter().find(|t| t.value == "up").unwrap();
    let (modified, args) = replace_tokens_with_positional(cmd, &[up_token]);
    assert_eq!(modified, "docker compose $1");
    assert_eq!(args, vec!["up"]);
}

#[test]
fn test_replace_tokens_multiple() {
    let cmd = "curl -X POST https://api.example.com/endpoint";
    let tokens = tokenize_command(cmd);
    let post = tokens.iter().find(|t| t.value == "POST").unwrap();
    let url = tokens
        .iter()
        .find(|t| t.value.starts_with("https"))
        .unwrap();
    let (modified, args) = replace_tokens_with_positional(cmd, &[post, url]);
    assert_eq!(modified, "curl -X $1 $2");
    assert_eq!(args, vec!["post", "https___api_example_com_endpoi"]);
}

#[test]
fn test_replace_tokens_empty_selection() {
    let cmd = "echo hello";
    let (modified, args) = replace_tokens_with_positional(cmd, &[]);
    assert_eq!(modified, "echo hello");
    assert!(args.is_empty());
}

#[test]
fn test_suggest_name_basic() {
    assert_eq!(suggest_name("docker compose up"), "docker");
    assert_eq!(suggest_name("echo hello world"), "echo");
}

#[test]
fn test_suggest_name_skips_prefixes() {
    assert_eq!(suggest_name("sudo docker compose up"), "docker");
    assert_eq!(suggest_name("env FOO=bar python script.py"), "python");
    assert_eq!(suggest_name("nohup nice node server.js"), "node");
}

#[test]
fn test_suggest_name_skips_flags_and_env_assigns() {
    assert_eq!(suggest_name("sudo -u root nginx -s reload"), "root");
}

#[test]
fn test_suggest_name_empty() {
    assert_eq!(suggest_name(""), "");
    assert_eq!(suggest_name("   "), "");
}

#[test]
fn tokenize_offsets_are_bytes_in_unicode_text() {
    let cmd = "échö  naïve\tcafé";
    let tokens = tokenize_command(cmd);
    let values: Vec<&str> = tokens.iter().map(|t| t.value.as_str()).collect();
    assert_eq!(values, vec!["échö", "naïve", "café"]);
    for t in &tokens {
        assert_eq!(&cmd[t.start..t.end], t.value);
    }
    assert_eq!(tokens[1].start, 8);
}

#[test]
fn tokenize_all_operators_are_skipped() {
    let tokens = tokenize_command("a | b && c || d ; e > f >> g < h 2> i & j 2>&1 k");
    let values: Vec<&str> = tokens.iter().map(|t| t.value.as_str()).collect();
    assert_eq!(values, vec!["a", "b", "c", "d", "e", "f", "g", "h", "i", "j", "k"]);
}

#[test]
fn tokenize_empty_and_blank_commands() {
    assert!(tokenize_command("").is_empty());
    assert!(tokenize_command(" \t\n ").is_empty());
}

#[test]
fn replace_tokens_in_any_selection_order() {
    let cmd = "cp src.txt dst.txt";
    let tokens = tokenize_command(cmd);
    let (modified, args) = replace_tokens_with_positional(cmd, &[&tokens[2], &tokens[1]]);
    assert_eq!(modified, "cp $2 $1");
    assert_eq!(args, vec!["dst_txt", "src_txt"]);
}

#[test]
fn replace_tokens_argument_names_are_cut_to_thirty() {
    let cmd = "echo ABCDEFGHIJKLMNOPQRSTUVWXYZ0123456789";
    let tokens = tokenize_command(cmd);
    let (modified, args) = replace_tokens_with_positional(cmd, &[&tokens[1]]);
    assert_eq!(modified, "echo $1");
    assert_eq!(args, vec!["abcdefghijklmnopqrstuvwxyz0123"]);
}

#[test]
fn replace_tokens_with_two_digit_positions() {
    let cmd = "a b c d e f g h i j k";
    let tokens = tokenize_command(cmd);
    let refs: Vec<&_> = tokens.iter().collect();
    let (modified, args) = replace_tokens_with_positional(cmd, &refs);
    assert_eq!(modified, "$1 $2 $3 $4 $5 $6 $7 $8 $9 $10 $11");
    assert_eq!(args.len(), 11);
}

#[test]
fn replace_tokens_keeps_unicode_around() {
    let cmd = "grüß → welt";
    let tokens = tokenize_command(cmd);
    let (modified, args) = replace_tokens_with_positional(cmd, &[&tokens[2]]);
    assert_eq!(modified, "grüß → $1");
    assert_eq!(args, vec!["welt"]);
}

#[test]
fn suggest_name_slugifies_the_word() {
    assert_eq!(suggest_name("time ./My_Script.SH --fast"), "my-script-sh");
    assert_eq!(suggest_name("command builtin exec -x A=1"), "");
}

#[test]
fn suggest_name_slug_of_a_path() {
    assert_eq!(suggest_name("time ./My_Script.SH"), "my-script-sh");
}

#[test]
fn whitespace_matches_std() {
    for u in 0u32..0x3100 {
        if let Some(c) = char::from_u32(u) {
            assert_eq!(char_is_whitespace(c), c.is_whitespace(), "{:#x}", u);
        }
    }
    for c in ['\u{feff}', '\u{200b}', '\u{10ffff}', 'a'] {
        assert_eq!(char_is_whitespace(c), c.is_whitespace());
    }
}
