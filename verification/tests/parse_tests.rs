use depgraph::cargo_parser::{
    extract_dependencies_section, manifest_url, parse_dependencies, CargoParseError,
};
use depgraph::test_repo::{parse_repo_map, TestRepoError};

#[test]
fn section_is_cut_between_headers() {
    let toml = "[package]\nname = \"x\"\n\n[dependencies]\nserde = \"1\"\ntokio = { version = \"1\" }\n\n[dev-dependencies]\nfoo = \"1\"\n";
    let sec = extract_dependencies_section(toml).unwrap();
    assert_eq!(sec, "serde = \"1\"\ntokio = { version = \"1\" }\n");
}

#[test]
fn section_runs_to_end_of_text() {
    let toml = "[dependencies]\na = \"1\"\nb = \"2\"";
    let sec = extract_dependencies_section(toml).unwrap();
    assert_eq!(sec, "a = \"1\"\nb = \"2\"");
}

#[test]
fn missing_section_is_a_parse_error() {
    let toml = "[package]\nname = \"x\"\n";
    assert_eq!(
        extract_dependencies_section(toml),
        Err(CargoParseError::ParseError)
    );
}

#[test]
fn empty_section_is_a_parse_error() {
    let toml = "[dependencies]\n[dev-dependencies]\nfoo = \"1\"\n";
    assert_eq!(
        extract_dependencies_section(toml),
        Err(CargoParseError::ParseError)
    );
}

#[test]
fn dependency_names_come_from_assignment_lines() {
    let section = "serde = \"1\"\ntokio = { version = \"1\" }\n\n# comment\nquick-xml = \"0.3\"";
    let deps = parse_dependencies(section);
    assert_eq!(
        deps,
        vec![
            "serde".to_string(),
            "tokio".to_string(),
            "quick-xml".to_string()
        ]
    );
}

#[test]
fn lines_without_assignment_are_skipped() {
    let deps = parse_dependencies("just text\n= \"1\"\n");
    assert_eq!(deps, Vec::<String>::new());
}

#[test]
fn manifest_url_for_repository_page() {
    assert_eq!(
        manifest_url("https://github.com/tokio-rs/tokio"),
        "https://raw.githubusercontent.com/tokio-rs/tokio/master/Cargo.toml"
    );
}

#[test]
fn manifest_url_strips_trailing_slash() {
    assert_eq!(
        manifest_url("https://github.com/tokio-rs/tokio/"),
        "https://raw.githubusercontent.com/tokio-rs/tokio/master/Cargo.toml"
    );
}

#[test]
fn manifest_url_for_git_url() {
    assert_eq!(
        manifest_url("https://example.com/repo.git"),
        "https://example.com/repo/master/Cargo.toml"
    );
}

#[test]
fn repo_map_parses_packages_and_dependencies() {
    let text = "A: B C\nB: C\nC:\n";
    let map = parse_repo_map(text).unwrap();
    assert_eq!(
        map,
        vec![
            ("A".to_string(), vec!["B".to_string(), "C".to_string()]),
            ("B".to_string(), vec!["C".to_string()]),
            ("C".to_string(), Vec::new()),
        ]
    );
}

#[test]
fn repo_map_skips_blank_lines_and_trims() {
    let text = "\n  A : B\n\n  \nB:\n";
    let map = parse_repo_map(text).unwrap();
    assert_eq!(
        map,
        vec![
            ("A".to_string(), vec!["B".to_string()]),
            ("B".to_string(), Vec::new()),
        ]
    );
}

#[test]
fn repo_map_last_line_for_a_package_wins() {
    let text = "A: B\nA: C\n";
    let map = parse_repo_map(text).unwrap();
    assert_eq!(map, vec![("A".to_string(), vec!["C".to_string()])]);
}

#[test]
fn repo_map_reports_the_offending_line() {
    let text = "A: B\nbad line\n";
    match parse_repo_map(text) {
        Err(TestRepoError::ParseError(msg)) => {
            assert_eq!(msg, "Invalid line format: 'bad line'");
        }
        other => panic!("expected a parse error, got {:?}", other),
    }
}
