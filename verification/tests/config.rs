//! The config, read by the real parser.
use sprout::config::{base, base_of, config_file, ConfigError, Field};

fn configured(text: &str) -> Option<String> {
    match base(Some(text)) {
        Ok(b) => b,
        Err(_) => panic!("{text}"),
    }
}

#[test]
fn a_configured_base() {
    assert_eq!(configured("{\n  \"base\": \"development\"\n}\n"), Some("development".to_string()));
    assert_eq!(configured("{\"base\": \"a\\u0062c\", \"other\": 1}"), Some("abc".to_string()));
}

#[test]
fn no_configured_base() {
    assert!(matches!(base(None), Ok(None)));
    assert_eq!(configured("{}"), None);
    assert_eq!(configured("{\"base\": null}"), None);
    assert_eq!(configured("{\"Base\": \"x\"}"), None);
    // A document that is no object has no base.
    assert_eq!(configured("[]"), None);
    assert_eq!(configured("7"), None);
    assert_eq!(configured("\"base\""), None);
}

#[test]
fn bad_bases() {
    for text in ["{\"base\": \"\"}", "{\"base\": 7}", "{\"base\": true}", "{\"base\": [\"x\"]}", "{\"base\": {}}"] {
        assert!(matches!(base(Some(text)), Err(ConfigError::BadBase)), "{text}");
    }
}

#[test]
fn malformed_configs() {
    for text in ["{ not valid json", "", "{\"base\": \"x\"} y", "{'base': 'x'}"] {
        match base(Some(text)) {
            Err(ConfigError::Malformed(m)) => assert!(!m.is_empty()),
            _ => panic!("{text}"),
        }
    }
}

#[test]
fn the_member_decides() {
    assert!(matches!(base_of(None), Ok(None)));
    assert!(matches!(base_of(Some(Field::Null)), Ok(None)));
    assert!(matches!(base_of(Some(Field::Text("b".to_string()))), Ok(Some(s)) if s == "b"));
    assert!(matches!(base_of(Some(Field::Text(String::new()))), Err(ConfigError::BadBase)));
    assert!(matches!(base_of(Some(Field::Other)), Err(ConfigError::BadBase)));
}

#[test]
fn config_messages_name_the_file() {
    let file = config_file(b"/r");
    assert_eq!(file, b"/r/.sprout/config.json".to_vec());
    assert_eq!(
        ConfigError::Malformed("x".to_string()).describe(&file),
        "failed to parse /r/.sprout/config.json"
    );
    assert_eq!(
        ConfigError::BadBase.describe(&file),
        "\"base\" in /r/.sprout/config.json must be a non-empty string"
    );
}
