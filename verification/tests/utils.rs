use raven_oss_tools::command::CommandRegistry;
use raven_oss_tools::config::Config;
use raven_oss_tools::paths::{append_slash, get_crypt_file_name, sanitize_prefix_path};

#[test]
fn test_sanitize() {
    let parsed_text = "Book/Literature Books";
    let raw_text = "////Book/Literature Books";

    assert_eq!(sanitize_prefix_path(raw_text), parsed_text)
}

#[test]
fn test_sanitize_backslashes_and_empty() {
    assert_eq!(sanitize_prefix_path("\\\\a\\b"), "a\\b");
    assert_eq!(sanitize_prefix_path(""), "");
    assert_eq!(sanitize_prefix_path("///"), "");
    assert_eq!(sanitize_prefix_path("plain"), "plain");
}

#[test]
fn test_append_slash() {
    let mut p = String::from("Book");
    append_slash(&mut p);
    assert_eq!(p, "Book/");

    let mut already = String::from("Book/");
    append_slash(&mut already);
    assert_eq!(already, "Book/");

    let mut backslash = String::from("Book\\");
    append_slash(&mut backslash);
    assert_eq!(backslash, "Book\\");

    let mut empty = String::new();
    append_slash(&mut empty);
    assert_eq!(empty, "");
}

#[test]
fn test_crypt_file_name() {
    assert_eq!(
        get_crypt_file_name("report.pdf", true).unwrap(),
        "report.pdf.enc"
    );
    assert_eq!(
        get_crypt_file_name("report.pdf.enc", false).unwrap(),
        "report.pdf"
    );
}

#[test]
fn test_crypt_file_name_with_directories() {
    assert_eq!(
        get_crypt_file_name("/home/user/report.pdf", true).unwrap(),
        "report.pdf.enc"
    );
    assert_eq!(
        get_crypt_file_name("/home/user/report.pdf.enc", false).unwrap(),
        "report.pdf"
    );
    assert_eq!(get_crypt_file_name("dir/noext", false).unwrap(), "noext");
    assert_eq!(get_crypt_file_name(".hidden", false).unwrap(), ".hidden");
}

#[test]
fn test_config_validity() {
    let empty = Config::new_empty();
    assert!(!empty.is_valid());

    let full = Config {
        access_key_id: "SECRET-REDACTED".to_string(),
        secret_access_key: "SECRET-REDACTED".to_string(),
        region: "cn-shanghai".to_string(),
        endpoint_url: "https://oss.example.com".to_string(),
        bucket: "books".to_string(),
    };
    assert!(full.is_valid());

    let partial = Config {
        bucket: String::new(),
        ..full
    };
    assert!(!partial.is_valid());
}

#[test]
fn test_command_registry_register_and_find() {
    let mut registry: CommandRegistry<u32> = CommandRegistry::new();
    registry.register("get".to_string(), 1);
    registry.register("put".to_string(), 2);
    registry.register("get".to_string(), 3);

    assert_eq!(registry.commands.len(), 2);
    let i = registry.find(&"get".to_string()).unwrap();
    assert_eq!(registry.commands[i].1, 3);
    let j = registry.find(&"put".to_string()).unwrap();
    assert_eq!(registry.commands[j].1, 2);
    assert_eq!(registry.find(&"ls".to_string()), None);
}
