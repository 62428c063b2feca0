use config_resolve::settings::{Config, Location};
use config_resolve::walk::candidate_paths;

fn home() -> Option<String> {
    Some("/home/dev".to_string())
}

#[test]
fn new_rejects_explicit_zero_jobs() {
    match Config::new(home(), Some(0), 8, None) {
        Err(e) => assert_eq!(e, "jobs must be at least 1"),
        Ok(_) => panic!("expected an error"),
    }
}

#[test]
fn new_fails_without_home_directory() {
    match Config::new(None, Some(2), 8, None) {
        Err(e) => assert_eq!(e, "could not determine your home directory"),
        Ok(_) => panic!("expected an error"),
    }
}

#[test]
fn new_defaults_jobs_to_cpu_count() {
    let c = Config::new(home(), None, 8, None).unwrap();
    assert_eq!(c.jobs(), 8);
    let c = Config::new(home(), Some(3), 8, None).unwrap();
    assert_eq!(c.jobs(), 3);
}

#[test]
fn paths_derive_from_home() {
    let c = Config::new(home(), None, 1, None).unwrap();
    assert_eq!(c.home().as_str(), "/home/dev");
    assert_eq!(c.git_db_path(), "/home/dev/.cargo/git/db");
    assert_eq!(c.git_checkout_path(), "/home/dev/.cargo/git/checkouts");
}

#[test]
fn target_linker_ar_are_optional_and_settable() {
    let mut c = Config::new(home(), None, 1, Some("x86_64-unknown-linux-gnu".to_string()))
        .unwrap();
    assert_eq!(c.target(), Some("x86_64-unknown-linux-gnu"));
    assert_eq!(c.linker(), None);
    assert_eq!(c.ar(), None);
    c.set_linker("lld".to_string());
    c.set_ar("llvm-ar".to_string());
    assert_eq!(c.linker(), Some("lld"));
    assert_eq!(c.ar(), Some("llvm-ar"));
}

#[test]
fn location_distinguishes_project_and_global() {
    assert!(Location::Project == Location::Project);
    assert!(Location::Project != Location::Global);
    let l = Location::Global;
    let copy = l;
    assert!(copy == Location::Global);
}

#[test]
fn candidate_paths_walk_to_root_nearest_first() {
    let paths = candidate_paths("/a/b/c");
    assert_eq!(
        paths,
        vec![
            "/a/b/c/.cargo/config".to_string(),
            "/a/b/.cargo/config".to_string(),
            "/a/.cargo/config".to_string(),
            "/.cargo/config".to_string(),
        ]
    );
}

#[test]
fn candidate_paths_at_root() {
    let paths = candidate_paths("/");
    assert_eq!(paths, vec!["/.cargo/config".to_string()]);
}
