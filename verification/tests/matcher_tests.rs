use repo2txt::args::{Args, OutputFormat};
use repo2txt::config::{
    default_ignore_types, default_max_depth, default_settings_extensions, Config,
};
use repo2txt::matcher::{create_globset, type_glob_of, ConfigError};

fn matcher_strings(items: &[&str]) -> Vec<String> {
    items.iter().map(|s| s.to_string()).collect()
}

fn matcher_args(ignore_files: &[&str], ignore_types: &[&str]) -> Args {
    Args {
        repo_path: ".".to_string(),
        output_file: "output.txt".to_string(),
        ignore_files: matcher_strings(ignore_files),
        ignore_types: matcher_strings(ignore_types),
        exclude_dir: matcher_strings(&["node_modules", "vendor", "dist", "build", "target"]),
        include_dir: None,
        ignore_settings: true,
        use_gitignore: true,
        file_path: None,
        config_path: None,
        follow_symlinks: false,
        max_depth: 100,
        output_format: OutputFormat::Text,
        include_hidden: false,
    }
}

#[test]
fn built_in_tables_hold_the_documented_entries() {
    assert_eq!(
        default_settings_extensions(),
        matcher_strings(&[".json", ".yaml", ".yml", ".xml"])
    );
    let types = default_ignore_types();
    assert_eq!(types.len(), 44);
    assert_eq!(types[0], "jpg");
    assert_eq!(types[7], "webp");
    assert_eq!(types[8], "mp4");
    assert_eq!(types[21], "pdf");
    assert_eq!(types[36], "7z");
    assert_eq!(types[43], "log");
    for t in ["jpeg", "png", "svg", "mkv", "flac", "docx", "pptx", "dll", "so", "pyc", "bz2", "db"] {
        assert!(types.iter().any(|x| x == t), "{}", t);
    }
    assert!(!types.iter().any(|x| x == "txt" || x == "md" || x == "rs"));
    assert_eq!(default_max_depth(), 100);
    let config = Config::builtin();
    assert_eq!(config.settings_extensions, default_settings_extensions());
    assert_eq!(config.default_ignore_types, types);
    assert_eq!(config.max_depth, 100);
}

#[test]
fn a_name_pattern_matches_as_a_glob() {
    let args = matcher_args(&["ignored.txt", "*.bak", "data?.csv"], &["x"]);
    let matcher = create_globset(&args, &Config::builtin()).unwrap();
    assert!(matcher.matches("ignored.txt"));
    assert!(matcher.matches("old.bak"));
    assert!(matcher.matches("data1.csv"));
    assert!(!matcher.matches("data12.csv"));
    assert!(!matcher.matches("README.md"));
    assert!(!matcher.matches("ignored.txt.orig"));
}

#[test]
fn the_glob_of_an_extension_has_no_leading_dots() {
    assert_eq!(type_glob_of("json"), "*.json");
    assert_eq!(type_glob_of(".json"), "*.json");
    assert_eq!(type_glob_of("...tar.gz"), "*.tar.gz");
    assert_eq!(type_glob_of("a.b."), "*.a.b.");
    assert_eq!(type_glob_of(""), "*.");
    assert_eq!(type_glob_of(".."), "*.");
}

#[test]
fn an_extension_entry_matches_with_its_leading_dots_stripped() {
    let args = matcher_args(&[], &["json", ".yaml", "..toml"]);
    let matcher = create_globset(&args, &Config::builtin()).unwrap();
    assert!(matcher.matches("test.json"));
    assert!(matcher.matches("a.yaml"));
    assert!(matcher.matches("Cargo.toml"));
    assert!(!matcher.matches("test.txt"));
    assert!(!matcher.matches("json"));
    // Configured extensions replace the default table.
    assert!(!matcher.matches("photo.jpg"));
}

#[test]
fn the_default_table_takes_part_when_no_extension_is_configured() {
    let args = matcher_args(&[], &[]);
    let matcher = create_globset(&args, &Config::builtin()).unwrap();
    assert!(matcher.matches("photo.jpg"));
    assert!(matcher.matches("archive.tar"));
    assert!(matcher.matches("x.log"));
    assert!(!matcher.matches("test.txt"));
    assert!(!matcher.matches("test.json"));
}

#[test]
fn an_overridden_default_table_is_used_with_dots_stripped() {
    let args = matcher_args(&[], &[]);
    let config = Config {
        settings_extensions: Vec::new(),
        default_ignore_types: matcher_strings(&[".md"]),
        max_depth: 100,
    };
    let matcher = create_globset(&args, &config).unwrap();
    assert!(matcher.matches("README.md"));
    assert!(!matcher.matches("photo.jpg"));
}

#[test]
fn an_empty_matcher_matches_nothing() {
    let args = matcher_args(&[], &[]);
    let config = Config {
        settings_extensions: Vec::new(),
        default_ignore_types: Vec::new(),
        max_depth: 100,
    };
    let matcher = create_globset(&args, &config).unwrap();
    assert!(!matcher.matches("anything"));
    assert!(!matcher.matches(""));
}

#[test]
fn the_empty_items_of_the_default_command_line_are_valid_patterns() {
    let args = matcher_args(&[""], &[""]);
    let matcher = create_globset(&args, &Config::builtin()).unwrap();
    assert!(!matcher.matches("README.md"));
    assert!(!matcher.matches("photo.jpg"));
    assert!(matcher.matches("odd."));
}

#[test]
fn a_malformed_file_pattern_is_reported_with_its_entry() {
    let args = matcher_args(&["ok.txt", "[abc", "{x"], &["a{b"]);
    match create_globset(&args, &Config::builtin()) {
        Err(ConfigError::IgnoreFilePattern { pattern, reason }) => {
            assert_eq!(pattern, "[abc");
            assert!(!reason.is_empty());
        }
        _ => panic!("expected an ignore-file pattern error"),
    }
}

#[test]
fn a_malformed_extension_is_reported_with_its_entry() {
    let args = matcher_args(&["ok.txt"], &["rs", ".a{b", "[z"]);
    match create_globset(&args, &Config::builtin()) {
        Err(ConfigError::IgnoreTypePattern { pattern, reason }) => {
            assert_eq!(pattern, ".a{b");
            assert!(!reason.is_empty());
        }
        _ => panic!("expected an ignore-type pattern error"),
    }
}

#[test]
fn a_malformed_default_table_entry_is_reported() {
    let args = matcher_args(&[], &[]);
    let config = Config {
        settings_extensions: Vec::new(),
        default_ignore_types: matcher_strings(&["jpg", "[x"]),
        max_depth: 100,
    };
    match create_globset(&args, &config) {
        Err(ConfigError::IgnoreTypePattern { pattern, .. }) => assert_eq!(pattern, "[x"),
        _ => panic!("expected an ignore-type pattern error"),
    }
}

#[test]
fn patterns_too_large_to_compile_together_are_reported() {
    let huge = "?".repeat(4_000_000);
    let args = matcher_args(&[huge.as_str()], &["rs"]);
    match create_globset(&args, &Config::builtin()) {
        Err(ConfigError::Build { reason }) => assert!(!reason.is_empty()),
        _ => panic!("expected a build error"),
    }
}

#[test]
fn error_messages_name_the_pattern() {
    let file = ConfigError::IgnoreFilePattern {
        pattern: "[abc".to_string(),
        reason: "why".to_string(),
    };
    assert_eq!(file.message(), "Invalid ignore file pattern '[abc': why");
    let kind = ConfigError::IgnoreTypePattern {
        pattern: "{x".to_string(),
        reason: "why".to_string(),
    };
    assert_eq!(kind.message(), "Invalid ignore type pattern '{x': why");
    let build = ConfigError::Build { reason: "too big".to_string() };
    assert_eq!(build.message(), "Failed to build GlobSet: too big");
}
