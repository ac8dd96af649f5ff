use texture_bag::{config_path_or_default, ConfigError, Registry, DEFAULT_CONFIG_PATH};

fn load_error(text: &str) -> ConfigError {
    match Registry::from_json(text) {
        Ok(_) => panic!("configuration should be refused: {}", text),
        Err(e) => e,
    }
}

#[test]
fn textures_not_an_object_is_refused() {
    assert!(matches!(
        load_error(r#"{"textures": "not-an-object"}"#),
        ConfigError::TexturesNotObject
    ));
}

#[test]
fn non_string_locator_is_refused_with_its_identifier() {
    match load_error(r#"{"textures": {"a": 5}}"#) {
        ConfigError::NotAPath(id) => assert_eq!(id, "a"),
        other => panic!("expected a non-string locator, got {:?}", other),
    }
}

#[test]
fn missing_textures_field_is_refused() {
    assert!(matches!(load_error(r#"{"images": {}}"#), ConfigError::MissingTextures));
    assert!(matches!(load_error("[1, 2]"), ConfigError::MissingTextures));
}

#[test]
fn malformed_json_is_refused() {
    assert!(matches!(load_error(r#"{"textures": "#), ConfigError::Syntax));
    assert!(matches!(load_error(""), ConfigError::Syntax));
}

#[test]
fn one_bad_entry_refuses_the_whole_file() {
    assert!(matches!(
        load_error(r#"{"textures": {"a": "a.png", "b": null, "c": "c.png"}}"#),
        ConfigError::NotAPath(_)
    ));
}

#[test]
fn registry_maps_identifiers_to_locators() {
    let r = Registry::from_json(r#"{"textures": {"brick": "brick.png", "grass": "img/grass.png"}}"#)
        .ok()
        .unwrap();
    assert_eq!(r.len(), 2);
    assert_eq!(r.locator(&"brick".to_string()).unwrap(), "brick.png");
    assert_eq!(r.locator(&"grass".to_string()).unwrap(), "img/grass.png");
    assert!(r.locator(&"stone".to_string()).is_none());
    let mut ids = r.ids();
    ids.sort();
    assert_eq!(ids, vec!["brick".to_string(), "grass".to_string()]);
}

#[test]
fn from_entries_reports_first_non_string() {
    let entries = vec![
        ("a".to_string(), Some("a.png".to_string())),
        ("b".to_string(), None),
        ("c".to_string(), None),
    ];
    match Registry::from_entries(entries) {
        Err(ConfigError::NotAPath(id)) => assert_eq!(id, "b"),
        _ => panic!("expected the first non-string entry"),
    }
}

#[test]
fn from_entries_keeps_every_pair() {
    let entries = vec![
        ("a".to_string(), Some("a.png".to_string())),
        ("b".to_string(), Some("b.png".to_string())),
    ];
    let r = Registry::from_entries(entries).ok().unwrap();
    assert_eq!(r.len(), 2);
    assert_eq!(r.locator(&"b".to_string()).unwrap(), "b.png");
}

#[test]
fn default_config_path_is_used_when_none_given() {
    assert_eq!(config_path_or_default(None), "texture_config.json");
    assert_eq!(DEFAULT_CONFIG_PATH, "texture_config.json");
    assert_eq!(config_path_or_default(Some("mine.json".to_string())), "mine.json");
}
