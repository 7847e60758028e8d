use qs::config::{Config, Profile};

#[test]
fn get_profile_with_empty_config() {
    let config = Config { default: None, profiles: Vec::new() };

    let result = config.get_profile("default");
    assert!(result.is_err());
    assert_eq!(
        result.unwrap_err(),
        "No host found. Add a host: 'qs add <alias> --host <host> --user <user>'"
    );

    let result = config.get_profile("nonexistent");
    assert!(result.is_err());
    assert_eq!(result.unwrap_err(), "Alias 'nonexistent' doesn't exist");
}

#[test]
fn get_profile_with_no_default_set() {
    let profiles = vec![(
        "server1".to_string(),
        Profile {
            host: "192.168.1.100".to_string(),
            user: "testuser".to_string(),
            port: 22,
        },
    )];

    let config = Config { default: None, profiles };

    let result = config.get_profile("default");
    assert!(result.is_err());
    assert_eq!(result.unwrap_err(), "No default set. Use 'qs set-default <alias>'");

    let result = config.get_profile("server1");
    assert!(result.is_ok());
    let profile = result.unwrap();
    assert_eq!(profile.host, "192.168.1.100");
    assert_eq!(profile.user, "testuser");
}

#[test]
fn get_profile_with_valid_default() {
    let profiles = vec![(
        "server1".to_string(),
        Profile {
            host: "192.168.1.100".to_string(),
            user: "testuser".to_string(),
            port: 22,
        },
    )];

    let config = Config { default: Some("server1".to_string()), profiles };

    let result = config.get_profile("default");
    assert!(result.is_ok());
    let profile = result.unwrap();
    assert_eq!(profile.host, "192.168.1.100");
    assert_eq!(profile.user, "testuser");
}

#[test]
fn get_profile_with_invalid_default() {
    let profiles = vec![(
        "server1".to_string(),
        Profile {
            host: "192.168.1.100".to_string(),
            user: "testuser".to_string(),
            port: 22,
        },
    )];

    let config = Config { default: Some("nonexistent".to_string()), profiles };

    let result = config.get_profile("default");
    assert!(result.is_err());
    assert_eq!(result.unwrap_err(), "Default alias 'nonexistent' not found");
}

#[test]
fn get_profile_direct_alias() {
    let profiles = vec![
        (
            "server1".to_string(),
            Profile {
                host: "192.168.1.100".to_string(),
                user: "user1".to_string(),
                port: 22,
            },
        ),
        (
            "server2".to_string(),
            Profile {
                host: "192.168.1.101".to_string(),
                user: "user2".to_string(),
                port: 22,
            },
        ),
    ];

    let config = Config { default: Some("server1".to_string()), profiles };

    let result = config.get_profile("server2");
    assert!(result.is_ok());
    let profile = result.unwrap();
    assert_eq!(profile.host, "192.168.1.101");
    assert_eq!(profile.user, "user2");

    let result = config.get_profile("server3");
    assert!(result.is_err());
    assert_eq!(result.unwrap_err(), "Alias 'server3' doesn't exist");
}
