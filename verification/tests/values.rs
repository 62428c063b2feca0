use config_resolve::raw::RawValue;
use config_resolve::value::{ConfigValue, ConfigValueValue};
use config_resolve::ConfigError;

fn scalar(path: &str, text: &str) -> ConfigValue {
    config_resolve::raw::from_toml(path, RawValue::Text(text.to_string())).unwrap()
}

fn list(path: &str, items: &[&str]) -> ConfigValue {
    let raw = RawValue::Array(items.iter().map(|s| RawValue::Text(s.to_string())).collect());
    config_resolve::raw::from_toml(path, raw).unwrap()
}

#[test]
fn new_value_is_an_empty_list() {
    let v = ConfigValue::new();
    match v.get_value() {
        ConfigValueValue::List(items) => assert!(items.is_empty()),
        _ => panic!("expected a list"),
    }
    assert!(v.path.is_empty());
}

#[test]
fn desc_names_each_kind() {
    assert_eq!(scalar("/p", "x").get_value().desc(), "string");
    assert_eq!(list("/p", &["x"]).get_value().desc(), "array");
    let t = config_resolve::raw::from_toml("/p", RawValue::Table(Vec::new())).unwrap();
    assert_eq!(t.get_value().desc(), "table");
}

#[test]
fn accessors_match_kind() {
    let s = scalar("/p", "hello");
    assert_eq!(s.string().unwrap(), "hello");
    assert!(s.list().is_err());
    assert!(s.table().is_err());

    let l = list("/p", &["a", "b"]);
    assert_eq!(*l.list().unwrap(), vec!["a".to_string(), "b".to_string()]);
    assert!(l.string().is_err());
    match l.string() {
        Err(ConfigError::TypeMismatch { expected, found, key }) => {
            assert_eq!(expected, "string");
            assert_eq!(found, "list");
            assert_eq!(key, "");
        },
        _ => panic!("expected TypeMismatch"),
    }
    match l.table() {
        Err(ConfigError::TypeMismatch { expected, found, .. }) => {
            assert_eq!(expected, "table");
            assert_eq!(found, "list");
        },
        _ => panic!("expected TypeMismatch"),
    }
    match scalar("/p", "x").list() {
        Err(ConfigError::TypeMismatch { expected, found, .. }) => {
            assert_eq!(expected, "list");
            assert_eq!(found, "string");
        },
        _ => panic!("expected TypeMismatch"),
    }
}

#[test]
fn from_toml_seeds_provenance() {
    let v = scalar("/dir/.cargo/config", "x");
    assert_eq!(v.path, vec!["/dir/.cargo/config".to_string()]);
}

#[test]
fn from_toml_rejects_mixed_array() {
    let raw = RawValue::Array(vec![RawValue::Text("a".to_string()), RawValue::Other]);
    match config_resolve::raw::from_toml("/p", raw) {
        Err(ConfigError::TypeMismatch { expected, found, .. }) => {
            assert_eq!(expected, "string");
            assert_eq!(found, "other value");
        },
        _ => panic!("expected TypeMismatch"),
    }
}

#[test]
fn from_toml_rejects_other_primitive() {
    match config_resolve::raw::from_toml("/p", RawValue::Other) {
        Err(ConfigError::TypeMismatch { .. }) => {},
        _ => panic!("expected TypeMismatch"),
    }
}

#[test]
fn merge_scalar_adopts_incoming_text_and_provenance() {
    let mut a = scalar("/near", "old");
    let b = scalar("/far", "new");
    a.merge(b).unwrap();
    assert_eq!(a.string().unwrap(), "new");
    assert_eq!(a.path, vec!["/far".to_string()]);
}

#[test]
fn merge_lists_concatenates_in_order() {
    let mut a = list("/near", &["a1", "a2"]);
    let b = list("/far", &["b1"]);
    a.merge(b).unwrap();
    assert_eq!(
        *a.list().unwrap(),
        vec!["a1".to_string(), "a2".to_string(), "b1".to_string()]
    );
    assert_eq!(a.path, vec!["/near".to_string(), "/far".to_string()]);
}

#[test]
fn merge_mismatched_kinds_fails_and_keeps_accumulator() {
    let mut a = scalar("/near", "x");
    let b = list("/far", &["y"]);
    match a.merge(b) {
        Err(ConfigError::TypeMismatch { expected, found, key }) => {
            assert_eq!(expected, "string");
            assert_eq!(found, "array");
            assert_eq!(key, "");
        },
        _ => panic!("expected TypeMismatch"),
    }
    // A root-level kind conflict leaves the accumulator untouched.
    assert_eq!(a.string().unwrap(), "x");
    assert_eq!(a.path, vec!["/near".to_string()]);
}

#[test]
fn merge_nested_conflict_names_key_path() {
    let inner_a = RawValue::Table(vec![("k".to_string(), RawValue::Text("v".to_string()))]);
    let ta = RawValue::Table(vec![("net".to_string(), inner_a)]);
    let inner_b = RawValue::Table(vec![(
        "k".to_string(),
        RawValue::Table(Vec::new()),
    )]);
    let tb = RawValue::Table(vec![("net".to_string(), inner_b)]);
    let mut a = config_resolve::raw::from_toml("/near", ta).unwrap();
    let b = config_resolve::raw::from_toml("/far", tb).unwrap();
    match a.merge(b) {
        Err(ConfigError::TypeMismatch { expected, found, key }) => {
            assert_eq!(expected, "string");
            assert_eq!(found, "table");
            assert_eq!(key, "net.k");
        },
        _ => panic!("expected TypeMismatch"),
    }
}

#[test]
fn merge_tables_unions_and_recurses() {
    let ta = RawValue::Table(vec![
        ("shared".to_string(), RawValue::Text("near".to_string())),
        ("only_a".to_string(), RawValue::Text("1".to_string())),
    ]);
    let tb = RawValue::Table(vec![
        ("shared".to_string(), RawValue::Text("far".to_string())),
        ("only_b".to_string(), RawValue::Text("2".to_string())),
    ]);
    let mut a = config_resolve::raw::from_toml("/near", ta).unwrap();
    let b = config_resolve::raw::from_toml("/far", tb).unwrap();
    a.merge(b).unwrap();
    let t = a.table().unwrap();
    assert_eq!(t.len(), 3);
    assert_eq!(t[0].0, "shared");
    assert_eq!(t[0].1.string().unwrap(), "far");
    assert_eq!(t[1].0, "only_a");
    assert_eq!(t[1].1.string().unwrap(), "1");
    assert_eq!(t[2].0, "only_b");
    assert_eq!(t[2].1.string().unwrap(), "2");
}
