use depgraph::config::{validate_config, ConfigError};

fn pairs(items: &[(&str, &str)]) -> Vec<(String, String)> {
    items
        .iter()
        .map(|(t, v)| (t.to_string(), v.to_string()))
        .collect()
}

#[test]
fn full_configuration_validates() {
    let cfg = validate_config(&pairs(&[
        ("PackageName", "tokio"),
        ("RepoSource", "https://github.com/tokio-rs/tokio"),
        ("Mode", "real"),
        ("AsciiTree", "true"),
        ("ExcludeFilter", "mio"),
    ]))
    .unwrap();
    assert_eq!(cfg.package_name, "tokio");
    assert_eq!(cfg.repo_source, "https://github.com/tokio-rs/tokio");
    assert_eq!(cfg.mode, "real");
    assert!(cfg.ascii_tree);
    assert_eq!(cfg.exclude_filter, "mio");
}

#[test]
fn missing_package_name_is_reported() {
    let r = validate_config(&pairs(&[
        ("RepoSource", "x"),
        ("Mode", "test"),
        ("AsciiTree", "false"),
    ]));
    match r {
        Err(ConfigError::MissingField(f)) => assert_eq!(f, "PackageName"),
        other => panic!("expected a missing field, got {:?}", other),
    }
}

#[test]
fn blank_repo_source_is_reported_missing() {
    let r = validate_config(&pairs(&[
        ("PackageName", "x"),
        ("RepoSource", "   "),
        ("Mode", "test"),
        ("AsciiTree", "false"),
    ]));
    match r {
        Err(ConfigError::MissingField(f)) => assert_eq!(f, "RepoSource"),
        other => panic!("expected a missing field, got {:?}", other),
    }
}

#[test]
fn missing_mode_is_reported() {
    let r = validate_config(&pairs(&[
        ("PackageName", "x"),
        ("RepoSource", "y"),
        ("AsciiTree", "false"),
    ]));
    match r {
        Err(ConfigError::MissingField(f)) => assert_eq!(f, "Mode"),
        other => panic!("expected a missing field, got {:?}", other),
    }
}

#[test]
fn unsupported_mode_is_invalid() {
    let r = validate_config(&pairs(&[
        ("PackageName", "x"),
        ("RepoSource", "y"),
        ("Mode", "bogus"),
        ("AsciiTree", "false"),
    ]));
    match r {
        Err(ConfigError::InvalidValue { field, msg }) => {
            assert_eq!(field, "Mode");
            assert_eq!(msg, "expected 'real' or 'test'");
        }
        other => panic!("expected an invalid value, got {:?}", other),
    }
}

#[test]
fn missing_ascii_tree_is_reported() {
    let r = validate_config(&pairs(&[
        ("PackageName", "x"),
        ("RepoSource", "y"),
        ("Mode", "test"),
    ]));
    match r {
        Err(ConfigError::MissingField(f)) => assert_eq!(f, "AsciiTree"),
        other => panic!("expected a missing field, got {:?}", other),
    }
}

#[test]
fn unsupported_ascii_tree_is_invalid_with_its_text() {
    let r = validate_config(&pairs(&[
        ("PackageName", "x"),
        ("RepoSource", "y"),
        ("Mode", "test"),
        ("AsciiTree", "yes"),
    ]));
    match r {
        Err(ConfigError::InvalidValue { field, msg }) => {
            assert_eq!(field, "AsciiTree");
            assert_eq!(msg, "expected true/false, got 'yes'");
        }
        other => panic!("expected an invalid value, got {:?}", other),
    }
}

#[test]
fn ascii_tree_spellings_parse() {
    for (text, expected) in [
        ("true", true),
        ("True", true),
        ("TRUE", true),
        ("false", false),
        ("False", false),
        ("FALSE", false),
    ] {
        let cfg = validate_config(&pairs(&[
            ("PackageName", "x"),
            ("RepoSource", "y"),
            ("Mode", "test"),
            ("AsciiTree", text),
        ]))
        .unwrap();
        assert_eq!(cfg.ascii_tree, expected);
    }
}

#[test]
fn mode_is_stored_trimmed() {
    let cfg = validate_config(&pairs(&[
        ("PackageName", "x"),
        ("RepoSource", "y"),
        ("Mode", "  real  "),
        ("AsciiTree", "false"),
    ]))
    .unwrap();
    assert_eq!(cfg.mode, "real");
}

#[test]
fn missing_exclude_filter_defaults_to_empty() {
    let cfg = validate_config(&pairs(&[
        ("PackageName", "x"),
        ("RepoSource", "y"),
        ("Mode", "test"),
        ("AsciiTree", "false"),
    ]))
    .unwrap();
    assert_eq!(cfg.exclude_filter, "");
}

#[test]
fn later_value_for_a_tag_wins() {
    let cfg = validate_config(&pairs(&[
        ("PackageName", "first"),
        ("RepoSource", "y"),
        ("Mode", "test"),
        ("AsciiTree", "false"),
        ("PackageName", "second"),
    ]))
    .unwrap();
    assert_eq!(cfg.package_name, "second");
}

#[test]
fn unknown_tags_are_ignored() {
    let cfg = validate_config(&pairs(&[
        ("Comment", "ignored"),
        ("PackageName", "x"),
        ("RepoSource", "y"),
        ("Mode", "test"),
        ("AsciiTree", "false"),
    ]))
    .unwrap();
    assert_eq!(cfg.package_name, "x");
}
