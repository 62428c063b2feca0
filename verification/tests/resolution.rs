use config_resolve::resolve::{all_configs, get_config, Fragment};
use config_resolve::value::{ConfigValue, ConfigValueValue};
use config_resolve::ConfigError;

fn frag(path: &str, contents: &str) -> Fragment {
    Fragment { path: path.to_string(), contents: contents.to_string() }
}

fn entry<'a>(m: &'a Vec<(String, ConfigValue)>, k: &str) -> &'a ConfigValue {
    for (key, v) in m.iter() {
        if key == k {
            return v;
        }
    }
    panic!("key {} not found", k);
}

#[test]
fn lookup_no_fragments_is_not_found() {
    let frags: Vec<Fragment> = Vec::new();
    match get_config(&frags, "registry") {
        Err(ConfigError::NotFound { key }) => assert_eq!(key, "registry"),
        _ => panic!("expected NotFound"),
    }
}

#[test]
fn lookup_nearest_fragment_wins() {
    let frags = vec![
        frag("/a/b/.cargo/config", "token = \"xyz\""),
        frag("/a/.cargo/config", "token = \"abc\""),
    ];
    let v = get_config(&frags, "token").unwrap();
    assert_eq!(v.string().unwrap(), "xyz");
}

#[test]
fn lookup_nearest_wins_never_farther() {
    let frags = vec![
        frag("/start/.cargo/config", "token = \"abc\""),
        frag("/.cargo/config", "token = \"xyz\""),
    ];
    let v = get_config(&frags, "token").unwrap();
    assert_eq!(v.string().unwrap(), "abc");
}

#[test]
fn lookup_skips_malformed_fragment() {
    let frags = vec![
        frag("/a/b/.cargo/config", "this is not valid = = ="),
        frag("/a/.cargo/config", "token = \"abc\""),
    ];
    let v = get_config(&frags, "token").unwrap();
    assert_eq!(v.string().unwrap(), "abc");
}

#[test]
fn lookup_skips_fragment_without_key() {
    let frags = vec![
        frag("/a/b/.cargo/config", "other = \"1\""),
        frag("/a/.cargo/config", "token = \"abc\""),
    ];
    let v = get_config(&frags, "token").unwrap();
    assert_eq!(v.string().unwrap(), "abc");
}

#[test]
fn lookup_skips_rejected_kind_and_exhausts() {
    let frags = vec![frag("/a/.cargo/config", "port = 8080")];
    match get_config(&frags, "port") {
        Err(ConfigError::NotFound { key }) => assert_eq!(key, "port"),
        _ => panic!("expected NotFound"),
    }
}

#[test]
fn single_fragment_scalar_lookup_and_aggregate() {
    let frags = vec![frag("/a/.cargo/config", "token = \"abc\"")];
    let v = get_config(&frags, "token").unwrap();
    assert_eq!(v.string().unwrap(), "abc");
    assert_eq!(v.path, vec!["/a/.cargo/config".to_string()]);

    let m = all_configs(&frags).unwrap();
    assert_eq!(m.len(), 1);
    let v = entry(&m, "token");
    assert_eq!(v.string().unwrap(), "abc");
    assert_eq!(v.path, vec!["/a/.cargo/config".to_string()]);
}

#[test]
fn aggregate_empty_chain_is_empty_mapping() {
    let frags: Vec<Fragment> = Vec::new();
    let m = all_configs(&frags).unwrap();
    assert!(m.is_empty());
}

#[test]
fn aggregate_concatenates_lists_nearest_first() {
    let frags = vec![
        frag("/a/b/.cargo/config", "flag = [\"y\"]"),
        frag("/a/.cargo/config", "flag = [\"x\"]"),
    ];
    let m = all_configs(&frags).unwrap();
    let v = entry(&m, "flag");
    let items = v.list().unwrap();
    assert_eq!(*items, vec!["y".to_string(), "x".to_string()]);
    assert_eq!(items.len(), 2);
    assert_eq!(
        v.path,
        vec!["/a/b/.cargo/config".to_string(), "/a/.cargo/config".to_string()]
    );
}

#[test]
fn aggregate_concatenates_lists_across_three_layers() {
    let frags = vec![
        frag("/a/b/c/.cargo/config", "paths = [\"a\"]"),
        frag("/a/b/.cargo/config", "paths = [\"b\", \"c\"]"),
        frag("/a/.cargo/config", "paths = []"),
    ];
    let m = all_configs(&frags).unwrap();
    let items = entry(&m, "paths").list().unwrap();
    assert_eq!(*items, vec!["a".to_string(), "b".to_string(), "c".to_string()]);
    assert_eq!(items.len(), 1 + 2 + 0);
}

#[test]
fn aggregate_scalar_last_merged_layer_wins() {
    // The fold is nearest-first and a merged scalar adopts the incoming
    // text, so the farthest layer ends up deciding scalar ties.
    let frags = vec![
        frag("/a/b/.cargo/config", "token = \"near\""),
        frag("/a/.cargo/config", "token = \"far\""),
    ];
    let m = all_configs(&frags).unwrap();
    assert_eq!(entry(&m, "token").string().unwrap(), "far");
}

#[test]
fn aggregate_type_conflict_fails_either_order() {
    let table_frag = "[k]\ninner = \"1\"";
    let scalar_frag = "k = \"v\"";
    for (a, b) in [(table_frag, scalar_frag), (scalar_frag, table_frag)] {
        let frags = vec![frag("/a/b/.cargo/config", a), frag("/a/.cargo/config", b)];
        match all_configs(&frags) {
            Err(ConfigError::TypeMismatch { key, .. }) => assert_eq!(key, "k"),
            _ => panic!("expected TypeMismatch"),
        }
    }
}

#[test]
fn aggregate_nested_conflict_names_key_path() {
    let frags = vec![
        frag("/a/b/.cargo/config", "[net]\nproxy = \"p\""),
        frag("/a/.cargo/config", "[net.proxy]\nhost = \"h\""),
    ];
    match all_configs(&frags) {
        Err(ConfigError::TypeMismatch { expected, found, key }) => {
            assert_eq!(key, "net.proxy");
            assert_eq!(expected, "string");
            assert_eq!(found, "table");
        },
        _ => panic!("expected TypeMismatch"),
    }
}

#[test]
fn aggregate_parse_error_is_fatal_and_names_path() {
    let frags = vec![
        frag("/a/b/.cargo/config", "token = \"ok\""),
        frag("/a/.cargo/config", "= broken ="),
    ];
    match all_configs(&frags) {
        Err(ConfigError::ParseError { path, cause }) => {
            assert_eq!(path, "/a/.cargo/config");
            assert!(!cause.is_empty());
        },
        _ => panic!("expected ParseError"),
    }
}

#[test]
fn aggregate_surfaces_the_nearest_failure() {
    // The nearest fragment is malformed and a farther one holds a kind
    // conflict: the parse failure is nearer, so it decides.
    let frags = vec![
        frag("/a/b/.cargo/config", "= broken ="),
        frag("/a/.cargo/config", "port = 8080"),
    ];
    match all_configs(&frags) {
        Err(ConfigError::ParseError { path, .. }) => assert_eq!(path, "/a/b/.cargo/config"),
        _ => panic!("expected ParseError"),
    }
}

#[test]
fn aggregate_rejects_kind_outside_domain() {
    let frags = vec![frag("/a/.cargo/config", "port = 8080")];
    match all_configs(&frags) {
        Err(ConfigError::TypeMismatch { .. }) => {},
        _ => panic!("expected TypeMismatch"),
    }
}

#[test]
fn aggregate_nested_tables_merge_keywise() {
    let frags = vec![
        frag("/a/b/.cargo/config", "[net]\nproxy = \"near\""),
        frag("/a/.cargo/config", "[net]\nretries = \"3\""),
    ];
    let m = all_configs(&frags).unwrap();
    let net = entry(&m, "net");
    let t = net.table().unwrap();
    assert_eq!(entry(t, "proxy").string().unwrap(), "near");
    assert_eq!(entry(t, "retries").string().unwrap(), "3");
}

#[test]
fn merging_same_mapping_twice_keeps_values_duplicates_provenance() {
    // Merge the identical mapping once, and twice, into an empty
    // accumulator, via aggregation over a chain repeating one fragment.
    let text = "token = \"abc\"\n[t]\nx = \"1\"";
    let once = all_configs(&vec![frag("/f/.cargo/config", text)]).unwrap();
    let twice = all_configs(&vec![
        frag("/f/.cargo/config", text),
        frag("/f/.cargo/config", text),
    ])
    .unwrap();
    // Same scalar and table values after the second merge.
    assert_eq!(
        entry(&twice, "token").string().unwrap(),
        entry(&once, "token").string().unwrap()
    );
    let t_twice = entry(&twice, "t").table().unwrap();
    let t_once = entry(&once, "t").table().unwrap();
    assert_eq!(
        entry(t_twice, "x").string().unwrap(),
        entry(t_once, "x").string().unwrap()
    );
    // Provenance accumulates: the table value saw the path twice.
    assert_eq!(
        entry(&twice, "t").path,
        vec!["/f/.cargo/config".to_string(), "/f/.cargo/config".to_string()]
    );
    assert_eq!(entry(&once, "t").path, vec!["/f/.cargo/config".to_string()]);
}

#[test]
fn io_error_carries_path() {
    // The read step surfaces unreadable fragments with this variant.
    let e = ConfigError::IOError { path: "/a/.cargo/config".to_string() };
    match e {
        ConfigError::IOError { path } => assert_eq!(path, "/a/.cargo/config"),
        _ => panic!("expected IOError"),
    }
}

#[test]
fn lookup_returns_nested_table_value() {
    let frags = vec![frag("/a/.cargo/config", "[paths]\nlib = \"/usr/lib\"")];
    let v = get_config(&frags, "paths").unwrap();
    match v.get_value() {
        ConfigValueValue::Table(entries) => {
            assert_eq!(entries.len(), 1);
            assert_eq!(entries[0].0, "lib");
            assert_eq!(entries[0].1.string().unwrap(), "/usr/lib");
        },
        _ => panic!("expected a table"),
    }
}
