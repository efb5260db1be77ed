use raven_oss_tools::parser::{Arguments, CommandParser, SkipChr};

#[test]
fn test_skip_chr() {
    let command_1 = "--a";
    let command_2 = "--";
    let command_3 = "-a";
    let command_4 = "-";

    assert_eq!(command_1.get_skip_chr(), 2);
    assert_eq!(command_2.get_skip_chr(), -1);
    assert_eq!(command_3.get_skip_chr(), 1);
    assert_eq!(command_4.get_skip_chr(), -1);
}

#[test]
fn test_parse_command() {
    let args: Vec<String> = [
        "a.exe",
        "put",
        "text=Hello World!",
        "--release",
        "-c",
        "-s",
        "mode=1",
        "-e",
        "environment=java",
        "box-1",
        "box-2",
    ]
    .iter()
    .map(|s| s.to_string())
    .collect();

    let mut flags: Vec<String> = Vec::new();
    flags.push("c".into());
    flags.push("release".into());

    let mut optional: Vec<(String, String)> = Vec::new();
    optional.push(("s".into(), "mode=1".into()));
    optional.push(("e".into(), "environment=java".into()));
    optional.push(("text".into(), "Hello World!".into()));

    let mut positional: Vec<String> = Vec::new();
    positional.push("box-1".into());
    positional.push("box-2".into());

    let command = Arguments {
        flags,
        optional,
        main_command: Some("put".into()),
        positional,
    };
    let command_by_from = CommandParser::from_strings(args);

    assert_eq!(command, command_by_from);
}

#[test]
fn test_parse_empty_args() {
    let parsed = CommandParser::from_strings(Vec::new());
    assert!(parsed.flags.is_empty());
    assert!(parsed.positional.is_empty());
    assert!(parsed.optional.is_empty());
    assert_eq!(parsed.main_command, None);
}

#[test]
fn test_trailing_flag_is_dropped() {
    let args: Vec<String> = ["prog", "ls", "-p"].iter().map(|s| s.to_string()).collect();
    let parsed = CommandParser::from_strings(args);
    assert_eq!(parsed.main_command, Some("ls".to_string()));
    assert!(parsed.flags.is_empty());
    assert!(parsed.optional.is_empty());
}

#[test]
fn test_flag_takes_following_value() {
    let args: Vec<String> = ["prog", "get", "-p", "hunter2", "file.txt"]
        .iter()
        .map(|s| s.to_string())
        .collect();
    let parsed = CommandParser::from_strings(args);
    assert_eq!(parsed.main_command, Some("get".to_string()));
    assert_eq!(parsed.positional, vec!["file.txt".to_string()]);
    assert_eq!(
        parsed.get_optional(&"p".to_string()),
        Some(&"hunter2".to_string())
    );
    assert_eq!(parsed.get_optional(&"missing".to_string()), None);
}

#[test]
fn test_repeated_option_keeps_last_value() {
    let args: Vec<String> = ["prog", "cmd", "-u", "one", "-u", "two"]
        .iter()
        .map(|s| s.to_string())
        .collect();
    let parsed = CommandParser::from_strings(args);
    assert_eq!(parsed.optional.len(), 1);
    assert_eq!(parsed.get_optional(&"u".to_string()), Some(&"two".to_string()));
}
