use sloop::config::{
    db_dir, injection_log_path, model_dir, root_for_path, roots_from, socket_path, state_dir,
    ConfigError, Environment, PathProbe, Root, RootLabel, Roots,
};

/// A probe that found a directory whose path is resolved already.
fn found(path: &str) -> PathProbe {
    PathProbe::Resolved(path.to_owned())
}

/// Parses a specification all of whose paths were found.
fn parse(spec: &str) -> Result<Roots, ConfigError> {
    let probes = match Roots::entries(spec) {
        Ok(entries) => entries.iter().map(|e| found(&e.path)).collect(),
        Err(_) => Vec::new(),
    };
    Roots::parse(spec, &probes)
}

#[test]
fn label_containing_colon_is_rejected() {
    let err = "va:ult".parse::<RootLabel>().unwrap_err();
    assert!(
        err.message().contains(':'),
        "error should name the bad character"
    );
}

#[test]
fn label_containing_equals_is_rejected() {
    let err = "va=ult".parse::<RootLabel>().unwrap_err();
    assert!(
        err.message().contains('='),
        "error should name the bad character"
    );
}

#[test]
fn empty_label_is_rejected() {
    let spec = "=/roots/one";
    assert!(parse(spec).is_err());
}

#[test]
fn empty_entry_is_rejected_naming_the_variable_and_format() {
    let spec = "notes=/roots/one:";
    let err = parse(spec).unwrap_err();
    let msg = err.message();
    assert!(msg.contains("SLOOP_MEMORY_ROOTS"), "got: {msg}");
    assert!(msg.contains("label=path"), "got: {msg}");
}

#[test]
fn colon_in_a_path_is_rejected_naming_the_separator() {
    let spec = "notes=/roots/one/My: Notes";
    let err = parse(spec).unwrap_err();
    let msg = err.message();
    assert!(msg.contains(':'), "error should name the separator: {msg}");
    assert!(
        msg.contains("cannot be expressed"),
        "error should say the path is inexpressible, not blame the label: {msg}"
    );
}

#[test]
fn duplicate_labels_are_rejected() {
    let spec = "notes=/roots/one:notes=/roots/two";
    let err = parse(spec).unwrap_err();
    assert!(err.message().contains("duplicate"), "got: {}", err.message());
}

#[test]
fn nonexistent_path_is_rejected_naming_the_path() {
    let spec = "notes=/definitely/does/not/exist/sloop-memory-test";
    let err = Roots::parse(spec, &vec![PathProbe::Missing]).unwrap_err();
    assert!(
        err.message()
            .contains("/definitely/does/not/exist/sloop-memory-test"),
        "error should name the missing path"
    );
}

#[test]
fn file_instead_of_directory_is_rejected() {
    let spec = "notes=/roots/one/not-a-dir";
    let err = Roots::parse(spec, &vec![PathProbe::NotADirectory]).unwrap_err();
    assert!(err.message().contains("not a directory"), "got: {}", err.message());
}

#[test]
fn unset_roots_env_is_rejected_naming_the_variable_and_format() {
    let err = roots_from(None, &Vec::new()).unwrap_err();
    let msg = err.message();
    assert!(msg.contains("SLOOP_MEMORY_ROOTS"), "got: {msg}");
    assert!(msg.contains("label=path"), "got: {msg}");
}

#[test]
fn set_roots_env_is_parsed() {
    let spec = "notes=/roots/link";
    let parsed = roots_from(Some(spec), &vec![found("/roots/one")]).unwrap();
    let labeled: Vec<&Root> = parsed.iter().iter().collect();
    assert_eq!(labeled.len(), 1);
    assert_eq!(labeled[0].label.as_str(), "notes");
    assert_eq!(labeled[0].dir.as_path(), "/roots/one");
}

#[test]
fn every_problem_says_what_to_do() {
    assert_eq!(
        parse("").unwrap_err().message(),
        "SLOOP_MEMORY_ROOTS is empty -- provide at least one `label=path` entry"
    );
    assert_eq!(
        parse("notes=/a::memory=/b").unwrap_err().message(),
        "SLOOP_MEMORY_ROOTS has an empty entry in \"notes=/a::memory=/b\" -- entries are \
         colon-separated `label=path` pairs, so a leading, trailing or doubled ':' is a typo, \
         not an empty root"
    );
    assert_eq!(
        parse("notes").unwrap_err(),
        ConfigError::NotAPair { entry: "notes".to_owned() }
    );
    assert_eq!(parse("=/a").unwrap_err(), ConfigError::EmptyLabel);
    assert_eq!(
        "va:\"ult".parse::<RootLabel>().unwrap_err().message(),
        "root label \"va:\\\"ult\" contains ':', which SLOOP_MEMORY_ROOTS uses to separate \
         entries -- rename the root"
    );
    assert_eq!(
        Roots::parse("notes=/a", &vec![PathProbe::Unresolved]).unwrap_err().message(),
        "canonicalizing root path /a"
    );
    assert_eq!(
        parse("notes=/a:notes=/b").unwrap_err().message(),
        "duplicate root label \"notes\" -- every root needs a unique label"
    );
}

#[test]
fn the_form_is_checked_before_any_path_and_an_entry_before_the_next() {
    // The second entry is malformed, so the missing path of the first is not reported.
    let err = Roots::parse("notes=/missing:oops", &Vec::new()).unwrap_err();
    assert_eq!(err, ConfigError::NotAPair { entry: "oops".to_owned() });

    let probes = vec![PathProbe::Missing, PathProbe::NotADirectory];
    let err = Roots::parse("notes=/missing:=/file", &probes).unwrap_err();
    assert_eq!(err, ConfigError::MissingPath { path: "/missing".to_owned() });
}

#[test]
fn a_path_keeps_every_equals_sign_but_the_first() {
    let entries = Roots::entries("notes=/a=b").unwrap();
    assert_eq!(entries[0].label, "notes");
    assert_eq!(entries[0].path, "/a=b");
}

#[test]
fn a_path_belongs_to_the_first_root_that_holds_it() {
    let roots = parse("notes=/roots/notes:deep=/roots/notes/deep:memory=/roots/memory").unwrap();
    let label = |path: &str, resolved: Option<&str>| {
        root_for_path(&roots, path, resolved).map(|r| r.label.as_str().to_owned())
    };
    assert_eq!(label("/roots/notes/a.md", None).as_deref(), Some("notes"));
    assert_eq!(label("/roots/notes/deep/a.md", None).as_deref(), Some("notes"));
    assert_eq!(label("/roots/notes2/a.md", None), None);
    assert_eq!(label("/link/a.md", Some("/roots/memory/a.md")).as_deref(), Some("memory"));
    assert_eq!(label("/link/a.md", None), None);
}

fn environment() -> Environment {
    Environment {
        model: None,
        state: None,
        xdg_state_home: None,
        home: Some("/home/u".to_owned()),
        socket: None,
        injection_log: None,
    }
}

#[test]
fn paths_follow_the_environment() {
    let mut env = environment();
    assert_eq!(state_dir(&env), "/home/u/.local/state/sloop-memory");
    assert_eq!(db_dir(&env), "/home/u/.local/state/sloop-memory/lancedb");
    assert_eq!(socket_path(&env), "/home/u/.local/state/sloop-memory/daemon.sock");
    assert_eq!(
        injection_log_path(&env),
        "/home/u/.local/state/sloop-memory/injections.jsonl"
    );
    env.xdg_state_home = Some("/xdg/".to_owned());
    assert_eq!(state_dir(&env), "/xdg/sloop-memory");
    env.state = Some("/state".to_owned());
    assert_eq!(db_dir(&env), "/state/lancedb");
    env.socket = Some("/run/s".to_owned());
    assert_eq!(socket_path(&env), "/run/s");
    assert_eq!(
        model_dir(&env).unwrap_err().message(),
        "SLOOP_MEMORY_MODEL is unset -- run the nix-wrapped binary, not the raw cargo one"
    );
    env.model = Some("/model".to_owned());
    assert_eq!(model_dir(&env).unwrap(), "/model");
}
