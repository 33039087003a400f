use minigrep::Config;
use minigrep::ConfigBuilder;
use minigrep::ConfigError;
use minigrep::SearchSettings;

fn args(raw: &[&str]) -> Vec<String> {
    raw.iter().map(|s| s.to_string()).collect()
}

#[test]
fn build_fails_without_query_and_path() {
    let result = ConfigBuilder::new().with_args(&args(&["prog"])).build();
    assert!(matches!(result, Err(ConfigError::MissingArguments)));
}

#[test]
fn build_fails_without_path() {
    let result = ConfigBuilder::new().with_args(&args(&["prog", "q"])).build();
    assert!(matches!(result, Err(ConfigError::MissingArguments)));
}

#[test]
fn build_fails_with_no_args_at_all() {
    let result = ConfigBuilder::new().build();
    assert!(matches!(result, Err(ConfigError::MissingArguments)));
}

#[test]
fn build_resolves_query_path_and_short_flag() {
    let config = ConfigBuilder::new()
        .with_args(&args(&["prog", "q", "path", "-i"]))
        .build()
        .unwrap();
    assert_eq!(config.query, "q");
    assert_eq!(config.file_path, "path");
    assert!(matches!(config.settings, SearchSettings::CaseInsensitive));
}

#[test]
fn build_resolves_long_flag() {
    let config = ConfigBuilder::new()
        .with_args(&args(&["prog", "q", "path", "--case-insensitive"]))
        .build()
        .unwrap();
    assert!(matches!(config.settings, SearchSettings::CaseInsensitive));
}

#[test]
fn unrecognized_flag_falls_back_to_case_sensitive() {
    let config = ConfigBuilder::new()
        .with_args(&args(&["prog", "q", "path", "--bogus"]))
        .build()
        .unwrap();
    assert_eq!(config.query, "q");
    assert_eq!(config.file_path, "path");
    assert!(matches!(config.settings, SearchSettings::CaseSensitive));
}

#[test]
fn absent_flag_defaults_to_case_sensitive() {
    let config = ConfigBuilder::new()
        .with_args(&args(&["prog", "q", "path"]))
        .build()
        .unwrap();
    assert!(matches!(config.settings, SearchSettings::CaseSensitive));
}

#[test]
fn settings_default_is_case_sensitive() {
    assert!(matches!(
        SearchSettings::default(),
        SearchSettings::CaseSensitive
    ));
}

#[test]
fn config_new_keeps_its_fields() {
    let config = Config::new(
        "needle".to_string(),
        "haystack.txt".to_string(),
        SearchSettings::CaseInsensitive,
    );
    assert_eq!(config.query, "needle");
    assert_eq!(config.file_path, "haystack.txt");
    assert!(matches!(config.settings, SearchSettings::CaseInsensitive));
}
