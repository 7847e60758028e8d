use qs::codec::{encode_config, parse_config};
use qs::config::{Config, Profile};

fn profile(host: &str, user: &str, port: u16) -> Profile {
    Profile { host: host.to_string(), user: user.to_string(), port }
}

fn assert_round_trip(config: &Config) {
    let text = encode_config(config);
    let back = parse_config(&text).expect("written registry must read back");
    assert_eq!(back.default, config.default);
    assert_eq!(back.profiles.len(), config.profiles.len());
    for (i, (alias, p)) in config.profiles.iter().enumerate() {
        assert_eq!(&back.profiles[i].0, alias);
        assert_eq!(back.profiles[i].1.host, p.host);
        assert_eq!(back.profiles[i].1.user, p.user);
        assert_eq!(back.profiles[i].1.port, p.port);
    }
}

#[test]
fn encode_writes_the_expected_document() {
    let config = Config {
        default: Some("server1".to_string()),
        profiles: vec![
            ("server1".to_string(), profile("192.168.1.100", "admin", 22)),
            ("server2".to_string(), profile("10.0.0.50", "deploy", 2222)),
        ],
    };
    let expected = "default = \"server1\"\n\n\
        [profiles.server1]\nhost = \"192.168.1.100\"\nuser = \"admin\"\nport = 22\n\n\
        [profiles.server2]\nhost = \"10.0.0.50\"\nuser = \"deploy\"\nport = 2222\n";
    assert_eq!(encode_config(&config), expected);
}

#[test]
fn encode_empty_registry_is_empty() {
    let config = Config { default: None, profiles: Vec::new() };
    assert_eq!(encode_config(&config), "");
    assert_round_trip(&config);
}

#[test]
fn round_trip_multiple_profiles() {
    let config = Config {
        default: Some("server1".to_string()),
        profiles: vec![
            ("server1".to_string(), profile("192.168.1.100", "admin", 22)),
            ("server2".to_string(), profile("10.0.0.50", "deploy", 22)),
        ],
    };
    assert_round_trip(&config);
}

#[test]
fn round_trip_no_default() {
    let config = Config {
        default: None,
        profiles: vec![("box1".to_string(), profile("example.com", "ops", 443))],
    };
    assert_round_trip(&config);
}

#[test]
fn round_trip_dangling_default() {
    let config = Config {
        default: Some("gone".to_string()),
        profiles: vec![("kept".to_string(), profile("example.com", "ops", 22))],
    };
    assert_round_trip(&config);
}

#[test]
fn round_trip_escapes_and_odd_keys() {
    let config = Config {
        default: Some("a b".to_string()),
        profiles: vec![
            ("a b".to_string(), profile("host\"quote", "user\\back", 1)),
            ("tab\tkey".to_string(), profile("line\nbreak", "bell\u{7}", 65535)),
        ],
    };
    let text = encode_config(&config);
    assert!(text.contains("[profiles.\"a b\"]"));
    assert!(text.contains("\\\"quote"));
    assert!(text.contains("\\u0007"));
    assert_round_trip(&config);
}

#[test]
fn parse_accepts_latitude() {
    let text = "# the registry\n\
        default = \"web\"  \n\
        \n\
        [profiles]\n\
        [ profiles.web ]\n".replace("[ profiles.web ]", "[profiles.web]")
        + "port = 8080\n  user = \"www\"\nhost=\"h\"\n";
    let config = parse_config(&text).expect("lenient document must parse");
    assert_eq!(config.default, Some("web".to_string()));
    assert_eq!(config.profiles.len(), 1);
    assert_eq!(config.profiles[0].0, "web");
    assert_eq!(config.profiles[0].1.host, "h");
    assert_eq!(config.profiles[0].1.user, "www");
    assert_eq!(config.profiles[0].1.port, 8080);
}

#[test]
fn parse_defaults_port_to_22() {
    let text = "[profiles.box1]\nhost = \"example.com\"\nuser = \"ops\"\n";
    let config = parse_config(text).expect("port may be omitted");
    assert_eq!(config.profiles[0].1.port, 22);
}

#[test]
fn parse_rejects_malformed_text() {
    assert!(parse_config("invalid toml [").is_err());
    assert_eq!(parse_config("invalid toml [").unwrap_err(), "Invalid config file format");
}

#[test]
fn parse_rejects_incomplete_profile() {
    let text = "[profiles.box1]\nhost = \"example.com\"\n";
    assert!(parse_config(text).is_err());
}

#[test]
fn parse_rejects_duplicate_alias() {
    let text = "[profiles.box1]\nhost = \"a\"\nuser = \"u\"\n\
        [profiles.box1]\nhost = \"b\"\nuser = \"v\"\n";
    assert!(parse_config(text).is_err());
}

#[test]
fn parse_rejects_port_out_of_range() {
    let ok = "[profiles.b]\nhost = \"h\"\nuser = \"u\"\nport = 65535\n";
    assert_eq!(parse_config(ok).unwrap().profiles[0].1.port, 65535);
    let too_big = "[profiles.b]\nhost = \"h\"\nuser = \"u\"\nport = 65536\n";
    assert!(parse_config(too_big).is_err());
    let not_a_number = "[profiles.b]\nhost = \"h\"\nuser = \"u\"\nport = \"22\"\n";
    assert!(parse_config(not_a_number).is_err());
}

#[test]
fn parse_rejects_duplicate_default() {
    let text = "default = \"a\"\ndefault = \"b\"\n";
    assert!(parse_config(text).is_err());
}

#[test]
fn parse_reads_escaped_strings() {
    let text = "[profiles.b]\nhost = \"a\\\"b\\\\c\\u0041\"\nuser = \"x\\ty\"\n";
    let config = parse_config(text).expect("escapes must parse");
    assert_eq!(config.profiles[0].1.host, "a\"b\\cA");
    assert_eq!(config.profiles[0].1.user, "x\ty");
}
