use repo2txt::args::{Args, OutputFormat};
use repo2txt::classify::{classify, is_ignored, should_include, verdict, Verdict};
use repo2txt::config::Config;
use repo2txt::entry::{Entry, EntryKind};
use repo2txt::matcher::create_globset;

fn classify_strings(items: &[&str]) -> Vec<String> {
    items.iter().map(|s| s.to_string()).collect()
}

fn classify_args() -> Args {
    Args {
        repo_path: "/r".to_string(),
        output_file: "output.txt".to_string(),
        ignore_files: classify_strings(&["ignored.txt"]),
        ignore_types: classify_strings(&["tmp"]),
        exclude_dir: classify_strings(&["node_modules", "target"]),
        include_dir: None,
        ignore_settings: true,
        use_gitignore: true,
        file_path: None,
        config_path: None,
        follow_symlinks: false,
        max_depth: 3,
        output_format: OutputFormat::Text,
        include_hidden: false,
    }
}

fn classify_entry(rel: &str, kind: EntryKind, depth: usize) -> Entry {
    let name = rel.rsplit('/').next().unwrap().to_string();
    Entry {
        path: format!("/r/{}", rel),
        rel_path: rel.to_string(),
        name,
        canonical: Some(format!("/r/{}", rel)),
        depth,
        kind,
        is_symlink: false,
    }
}

fn classify_file(rel: &str) -> Entry {
    classify_entry(rel, EntryKind::File, rel.split('/').count())
}

fn classify_dir(rel: &str) -> Entry {
    classify_entry(rel, EntryKind::Directory, rel.split('/').count())
}

fn classify_plain(entry: &Entry, args: &Args) -> Verdict {
    let ext = repo2txt::classify::lowered_extension_of(&entry.name);
    classify(entry, args, &Config::builtin(), "/out/output.txt", &ext, false)
}

#[test]
fn an_ordinary_file_is_included() {
    let args = classify_args();
    assert_eq!(classify_plain(&classify_file("README.md"), &args), Verdict::Include);
    assert_eq!(classify_plain(&classify_file("src/main.rs"), &args), Verdict::Include);
    assert_eq!(classify_plain(&classify_dir("src"), &args), Verdict::Include);
}

#[test]
fn the_output_file_is_left_out_before_every_other_rule() {
    let mut args = classify_args();
    args.include_hidden = true;
    args.ignore_settings = false;
    let mut entry = classify_file("out.md");
    entry.canonical = Some("/out/output.txt".to_string());
    assert_eq!(classify_plain(&entry, &args), Verdict::OutputFile);
    // Also where a later rule would apply as well.
    args.include_dir = Some("/elsewhere".to_string());
    entry.depth = 99;
    assert_eq!(classify_plain(&entry, &args), Verdict::OutputFile);
    // It is the canonical path that counts, not the path of the entry.
    let mut other = classify_file("output.txt");
    other.path = "/out/output.txt".to_string();
    assert_eq!(classify_plain(&other, &args), Verdict::OutsideIncludeDir);
}

#[test]
fn a_path_that_cannot_be_resolved_is_classified_by_the_other_rules() {
    let args = classify_args();
    let mut entry = classify_file("dangling.txt");
    entry.canonical = None;
    entry.kind = EntryKind::Other;
    assert_eq!(classify_plain(&entry, &args), Verdict::Include);
    let mut hidden = classify_file(".dangling");
    hidden.canonical = None;
    assert_eq!(classify_plain(&hidden, &args), Verdict::Hidden);
}

#[test]
fn an_include_directory_admits_what_lies_in_it_and_what_leads_to_it() {
    let mut args = classify_args();
    args.include_dir = Some("/r/a/b".to_string());
    assert_eq!(classify_plain(&classify_dir("a"), &args), Verdict::Include);
    assert_eq!(classify_plain(&classify_dir("a/b"), &args), Verdict::Include);
    assert_eq!(classify_plain(&classify_file("a/b/x.txt"), &args), Verdict::Include);
    assert_eq!(classify_plain(&classify_file("a/x.txt"), &args), Verdict::OutsideIncludeDir);
    assert_eq!(classify_plain(&classify_dir("c"), &args), Verdict::OutsideIncludeDir);
    assert_eq!(classify_plain(&classify_dir("a/bc"), &args), Verdict::OutsideIncludeDir);
    // Only a directory can lead to the include directory.
    assert_eq!(classify_plain(&classify_file("a"), &args), Verdict::OutsideIncludeDir);
    assert_eq!(classify_plain(&classify_file("a/b"), &args), Verdict::Include);
    // The rule comes before the depth rule.
    let mut deep = classify_file("c/d/e/f/g.txt");
    deep.depth = 5;
    assert_eq!(classify_plain(&deep, &args), Verdict::OutsideIncludeDir);
}

#[test]
fn an_entry_is_too_deep_only_beyond_the_maximum() {
    let args = classify_args();
    let mut entry = classify_file("a/b/c.txt");
    entry.depth = 3;
    assert_eq!(classify_plain(&entry, &args), Verdict::Include);
    entry.depth = 4;
    assert_eq!(classify_plain(&entry, &args), Verdict::TooDeep);
    // The depth rule comes before the name rules.
    let mut ignored = classify_file("a/b/c/ignored.txt");
    ignored.depth = 4;
    assert_eq!(classify_plain(&ignored, &args), Verdict::TooDeep);
    let mut dir = classify_dir("a/b/c/target");
    dir.depth = 4;
    assert_eq!(classify_plain(&dir, &args), Verdict::TooDeep);
}

#[test]
fn an_excluded_name_excludes_directories_only() {
    let args = classify_args();
    assert_eq!(classify_plain(&classify_dir("target"), &args), Verdict::ExcludedDir);
    assert_eq!(classify_plain(&classify_dir("a/node_modules"), &args), Verdict::ExcludedDir);
    assert_eq!(classify_plain(&classify_file("target"), &args), Verdict::Include);
    assert_eq!(classify_plain(&classify_dir("targets"), &args), Verdict::Include);
    // A hidden excluded directory is reported as excluded: that rule is first.
    let mut both = classify_args();
    both.exclude_dir = classify_strings(&[".git"]);
    assert_eq!(classify_plain(&classify_dir(".git"), &both), Verdict::ExcludedDir);
}

#[test]
fn an_ignored_name_excludes_files_only() {
    let args = classify_args();
    assert_eq!(classify_plain(&classify_file("ignored.txt"), &args), Verdict::IgnoredFileName);
    assert_eq!(classify_plain(&classify_file("a/ignored.txt"), &args), Verdict::IgnoredFileName);
    assert_eq!(classify_plain(&classify_dir("ignored.txt"), &args), Verdict::Include);
    assert_eq!(classify_plain(&classify_file("Ignored.txt"), &args), Verdict::Include);
}

#[test]
fn an_ignored_extension_is_compared_in_lower_case() {
    let args = classify_args();
    assert_eq!(classify_plain(&classify_file("a.tmp"), &args), Verdict::IgnoredExtension);
    assert_eq!(classify_plain(&classify_file("a.TMP"), &args), Verdict::IgnoredExtension);
    assert_eq!(classify_plain(&classify_file("a.b.Tmp"), &args), Verdict::IgnoredExtension);
    assert_eq!(classify_plain(&classify_file("tmp"), &args), Verdict::Include);
    assert_eq!(classify_plain(&classify_file(".tmp"), &args), Verdict::Hidden);
    assert_eq!(classify_plain(&classify_dir("a.tmp"), &args), Verdict::Include);
    // The name rule comes first.
    let mut both = classify_args();
    both.ignore_files = classify_strings(&["a.tmp"]);
    assert_eq!(classify_plain(&classify_file("a.tmp"), &both), Verdict::IgnoredFileName);
}

#[test]
fn the_default_table_applies_only_without_configured_extensions() {
    let mut args = classify_args();
    assert_eq!(classify_plain(&classify_file("photo.jpg"), &args), Verdict::Include);
    args.ignore_types = Vec::new();
    assert_eq!(classify_plain(&classify_file("photo.jpg"), &args), Verdict::DefaultIgnoredType);
    assert_eq!(classify_plain(&classify_file("photo.JPG"), &args), Verdict::DefaultIgnoredType);
    assert_eq!(classify_plain(&classify_file("a.tmp"), &args), Verdict::Include);
    assert_eq!(classify_plain(&classify_dir("photo.jpg"), &args), Verdict::Include);
    // One empty item, as the default command line gives it, is a configured extension.
    args.ignore_types = classify_strings(&[""]);
    assert_eq!(classify_plain(&classify_file("photo.jpg"), &args), Verdict::Include);
    assert_eq!(classify_plain(&classify_file("odd."), &args), Verdict::IgnoredExtension);
}

#[test]
fn settings_files_are_left_out_while_asked_for() {
    let mut args = classify_args();
    for name in ["config.json", "a.yaml", "b.yml", "c.xml", "D.JSON", "e.Yml"] {
        assert_eq!(classify_plain(&classify_file(name), &args), Verdict::SettingsFile, "{}", name);
    }
    assert_eq!(classify_plain(&classify_file("a.toml"), &args), Verdict::Include);
    assert_eq!(classify_plain(&classify_file("json"), &args), Verdict::Include);
    args.ignore_settings = false;
    assert_eq!(classify_plain(&classify_file("config.json"), &args), Verdict::Include);
    // An ignored extension is reported before the settings rule.
    args.ignore_settings = true;
    args.ignore_types = classify_strings(&["json"]);
    assert_eq!(classify_plain(&classify_file("config.json"), &args), Verdict::IgnoredExtension);
}

#[test]
fn hidden_entries_are_left_out_unless_asked_for() {
    let mut args = classify_args();
    assert_eq!(classify_plain(&classify_file(".hiddenfile"), &args), Verdict::Hidden);
    assert_eq!(classify_plain(&classify_dir(".hidden"), &args), Verdict::Hidden);
    assert_eq!(classify_plain(&classify_file("a/.env"), &args), Verdict::Hidden);
    assert_eq!(classify_plain(&classify_file("not.hidden"), &args), Verdict::Include);
    args.include_hidden = true;
    assert_eq!(classify_plain(&classify_file(".hiddenfile"), &args), Verdict::Include);
    assert_eq!(classify_plain(&classify_dir(".hidden"), &args), Verdict::Include);
    // A hidden settings file is reported as a settings file: that rule is first.
    args.include_hidden = false;
    assert_eq!(classify_plain(&classify_file(".eslintrc.json"), &args), Verdict::SettingsFile);
}

#[test]
fn a_pattern_match_is_the_last_rule() {
    let args = classify_args();
    let config = Config::builtin();
    let entry = classify_file("notes.txt");
    let ext = Some("txt".to_string());
    assert_eq!(classify(&entry, &args, &config, "/out", &ext, true), Verdict::PatternMatch);
    assert_eq!(classify(&entry, &args, &config, "/out", &ext, false), Verdict::Include);
    let hidden = classify_file(".notes");
    assert_eq!(classify(&hidden, &args, &config, "/out", &None, true), Verdict::Hidden);
    let dir = classify_dir("docs");
    assert_eq!(classify(&dir, &args, &config, "/out", &None, true), Verdict::PatternMatch);
}

#[test]
fn classification_goes_by_the_extension_handed_in() {
    let args = classify_args();
    let config = Config::builtin();
    let entry = classify_file("a.tmp");
    assert_eq!(
        classify(&entry, &args, &config, "/out", &Some("tmp".to_string()), false),
        Verdict::IgnoredExtension
    );
    assert_eq!(
        classify(&entry, &args, &config, "/out", &Some("TMP".to_string()), false),
        Verdict::Include
    );
    assert_eq!(classify(&entry, &args, &config, "/out", &None, false), Verdict::Include);
}

#[test]
fn the_verdict_uses_the_matcher_on_the_file_name() {
    let mut args = classify_args();
    args.ignore_files = classify_strings(&["*.bak", "docs"]);
    args.ignore_types = classify_strings(&["csv"]);
    args.ignore_settings = false;
    let config = Config::builtin();
    let matcher = create_globset(&args, &config).unwrap();
    let check = |entry: &Entry| verdict(entry, &matcher, &args, &config, "/out/output.txt");
    assert_eq!(check(&classify_file("a/old.bak")), Verdict::PatternMatch);
    assert_eq!(check(&classify_dir("docs")), Verdict::PatternMatch);
    assert_eq!(check(&classify_dir("a/docs")), Verdict::PatternMatch);
    assert_eq!(check(&classify_file("data.csv")), Verdict::IgnoredExtension);
    assert_eq!(check(&classify_file("DATA.CSV")), Verdict::IgnoredExtension);
    assert_eq!(check(&classify_dir("dir.csv")), Verdict::PatternMatch);
    assert_eq!(check(&classify_file("docs.txt")), Verdict::Include);
    // The pattern is matched against the name alone, not against the path.
    assert_eq!(check(&classify_file("docs/readme.txt")), Verdict::Include);
    assert!(is_ignored(&classify_file("a/old.bak"), &matcher, &args, &config, "/out/output.txt"));
    assert!(!is_ignored(&classify_file("docs.txt"), &matcher, &args, &config, "/out/output.txt"));
    assert!(!should_include(&classify_file("a/old.bak"), &matcher, &args, &config, "/out/x"));
    assert!(should_include(&classify_file("docs.txt"), &matcher, &args, &config, "/out/x"));
}
