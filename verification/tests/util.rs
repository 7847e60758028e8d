use qs::config::{Config, Profile};
use qs::util::{
    add_alias, check_dependencies, compound_token_split, missing_tools_msg, multiplex_options,
    set_default, ssh_target, validate_alias, AddError,
};

fn profile(host: &str, user: &str, port: u16) -> Profile {
    Profile { host: host.to_string(), user: user.to_string(), port }
}

#[test]
fn validate_accepts_ordinary_aliases() {
    assert!(validate_alias("box").is_ok());
    assert!(validate_alias("web-1").is_ok());
    assert!(validate_alias("my_server.prod").is_ok());
    assert!(validate_alias("a").is_ok());
    assert!(validate_alias("defaults").is_ok());
}

#[test]
fn validate_rejects_each_rule() {
    assert_eq!(validate_alias("").unwrap_err(), "Alias cannot be empty");
    assert_eq!(
        validate_alias("default").unwrap_err(),
        "'default' is a reserved alias name"
    );
    assert_eq!(
        validate_alias("a:b").unwrap_err(),
        "Alias cannot contain ':' character"
    );
    assert_eq!(
        validate_alias("a/b").unwrap_err(),
        "Alias cannot contain '/' character"
    );
    assert_eq!(validate_alias("-a").unwrap_err(), "Alias cannot start with '-'");
}

#[test]
fn add_refuses_existing_alias_without_overwrite() {
    let mut config = Config {
        default: Some("box1".to_string()),
        profiles: vec![("box1".to_string(), profile("10.0.0.5", "ops", 22))],
    };
    let result = add_alias(&mut config, "box1", profile("10.0.0.9", "other", 2222), false, false);
    match result {
        Err(AddError::AliasExists(alias, existing)) => {
            assert_eq!(alias, "box1");
            assert_eq!(existing.host, "10.0.0.5");
            assert_eq!(existing.user, "ops");
            assert_eq!(existing.port, 22);
        },
        _ => panic!("expected AliasExists"),
    }
    assert_eq!(config.profiles.len(), 1);
    assert_eq!(config.profiles[0].1.host, "10.0.0.5");
}

#[test]
fn add_overwrites_when_asked() {
    let mut config = Config {
        default: Some("box1".to_string()),
        profiles: vec![("box1".to_string(), profile("10.0.0.5", "ops", 22))],
    };
    let result = add_alias(&mut config, "box1", profile("10.0.0.9", "other", 2222), false, true);
    assert!(result.is_ok());
    assert_eq!(config.profiles.len(), 1);
    assert_eq!(config.profiles[0].1.host, "10.0.0.9");
    assert_eq!(config.profiles[0].1.user, "other");
    assert_eq!(config.profiles[0].1.port, 2222);
}

#[test]
fn add_rejects_invalid_alias() {
    let mut config = Config { default: None, profiles: Vec::new() };
    let result = add_alias(&mut config, "a:b", profile("h", "u", 22), false, false);
    match result {
        Err(AddError::InvalidAlias(msg)) => {
            assert_eq!(msg, "Alias cannot contain ':' character");
        },
        _ => panic!("expected InvalidAlias"),
    }
    assert!(config.profiles.is_empty());
}

#[test]
fn first_added_profile_becomes_default() {
    let mut config = Config { default: None, profiles: Vec::new() };
    assert!(add_alias(&mut config, "box", profile("10.0.0.5", "ops", 22), false, false).is_ok());
    assert_eq!(config.default, Some("box".to_string()));

    assert!(add_alias(&mut config, "db", profile("10.0.0.6", "ops", 5432), false, false).is_ok());
    assert_eq!(config.default, Some("box".to_string()));

    let messages = qs::util::remove_alias(&mut config, "box").unwrap();
    assert_eq!(
        messages,
        vec![
            "✓ Removed default alias 'box'",
            "✓ Set 'db' as new default"
        ]
    );
    assert_eq!(config.default, Some("db".to_string()));

    let (alias, path) = compound_token_split("db:/var/log");
    assert_eq!(alias, "db");
    assert_eq!(path, "/var/log");
}

#[test]
fn add_with_is_default_moves_the_pointer() {
    let mut config = Config {
        default: Some("box".to_string()),
        profiles: vec![("box".to_string(), profile("10.0.0.5", "ops", 22))],
    };
    assert!(add_alias(&mut config, "db", profile("10.0.0.6", "ops", 5432), true, false).is_ok());
    assert_eq!(config.default, Some("db".to_string()));
}

#[test]
fn set_default_requires_known_alias() {
    let mut config = Config {
        default: None,
        profiles: vec![("box".to_string(), profile("10.0.0.5", "ops", 22))],
    };
    assert_eq!(set_default(&mut config, "nope").unwrap_err(), "Alias 'nope' not found");
    assert_eq!(config.default, None);
    assert!(set_default(&mut config, "box").is_ok());
    assert_eq!(config.default, Some("box".to_string()));
}

#[test]
fn ssh_target_joins_user_and_host() {
    let p = profile("192.168.1.100", "admin", 22);
    assert_eq!(ssh_target(&p), "admin@192.168.1.100");
}

#[test]
fn multiplex_options_name_the_socket_dir() {
    let opts = multiplex_options("/home/me/.ssh/sockets");
    assert_eq!(
        opts,
        vec![
            "-o",
            "ControlMaster=auto",
            "-o",
            "ControlPath=/home/me/.ssh/sockets/%C",
            "-o",
            "ControlPersist=10m",
        ]
    );
}

#[test]
fn compound_token_without_colon_uses_default() {
    let (alias, path) = compound_token_split("/var/log/syslog");
    assert_eq!(alias, "default");
    assert_eq!(path, "/var/log/syslog");

    let (alias, path) = compound_token_split("db:");
    assert_eq!(alias, "db");
    assert_eq!(path, "");

    let (alias, path) = compound_token_split("db:a:b");
    assert_eq!(alias, "db");
    assert_eq!(path, "a:b");
}

#[test]
fn check_dependencies_reports_missing_tools() {
    assert!(check_dependencies(true, true, true).is_ok());
    let msg = check_dependencies(true, false, false).unwrap_err();
    assert_eq!(msg, missing_tools_msg(vec!["ssh-keygen", "rsync"]));
    assert!(msg.contains("  • ssh-keygen\n"));
    assert!(msg.contains("  • rsync\n"));
    assert!(!msg.contains("  • ssh\n"));
    assert!(msg.starts_with("Missing required tools:\n\n"));
    assert!(msg.contains("package manager"));
}
