use repo2txt::args::{Args, OutputFormat};
use repo2txt::config::Config;
use repo2txt::entry::{DirItem, Entry, EntryKind};
use repo2txt::matcher::create_globset;
use repo2txt::walk::{walk_entries, DirListing, FileTree};
use repo2txt::write::{
    write_file_content, write_file_contents, write_footer, write_header, write_repository,
    write_tree,
};

fn write_strings(items: &[&str]) -> Vec<String> {
    items.iter().map(|s| s.to_string()).collect()
}

fn write_args(format: OutputFormat) -> Args {
    Args {
        repo_path: "/tmp/repo".to_string(),
        output_file: "/tmp/output.txt".to_string(),
        ignore_files: write_strings(&[""]),
        ignore_types: write_strings(&[""]),
        exclude_dir: write_strings(&[""]),
        include_dir: None,
        ignore_settings: true,
        use_gitignore: true,
        file_path: None,
        config_path: None,
        follow_symlinks: false,
        max_depth: 100,
        output_format: format,
        include_hidden: false,
    }
}

fn write_entry(rel: &str, kind: EntryKind) -> Entry {
    let depth = if rel.is_empty() { 0 } else { rel.split('/').count() };
    let name = if rel.is_empty() { "repo" } else { rel.rsplit('/').next().unwrap() };
    Entry {
        path: if rel.is_empty() { "/tmp/repo".to_string() } else { format!("/tmp/repo/{}", rel) },
        rel_path: rel.to_string(),
        name: name.to_string(),
        canonical: None,
        depth,
        kind,
        is_symlink: false,
    }
}

/// The whole document for a repository of one level.
fn write_document(files: &[(&str, &str)], args: &Args) -> String {
    let items = files
        .iter()
        .map(|(name, _)| DirItem {
            name: name.to_string(),
            canonical: Some(format!("/tmp/repo/{}", name)),
            kind: EntryKind::File,
            is_symlink: false,
        })
        .collect();
    let tree = FileTree { dirs: vec![DirListing { path: "/tmp/repo".to_string(), items }] };
    let root = DirItem {
        name: "repo".to_string(),
        canonical: Some("/tmp/repo".to_string()),
        kind: EntryKind::Directory,
        is_symlink: false,
    };
    let config = Config::builtin();
    let matcher = create_globset(args, &config).unwrap();
    let entries =
        walk_entries("/tmp/repo", &root, &tree, args, &config, &matcher, "/tmp/output.txt").unwrap();
    let contents: Vec<Option<Vec<String>>> = entries
        .iter()
        .map(|e| {
            files
                .iter()
                .find(|(name, _)| *name == e.rel_path)
                .map(|(_, text)| text.lines().map(str::to_string).collect())
        })
        .collect();
    let mut out = String::new();
    write_header(&mut out, args);
    write_repository(&entries, &contents, &mut out);
    write_footer(&mut out, args);
    out
}

#[test]
fn the_text_header_is_five_lines_and_a_blank_one() {
    let mut out = String::new();
    write_header(&mut out, &write_args(OutputFormat::Text));
    assert_eq!(
        out,
        "Repository Documentation\n\
         This document provides an overview of the repository's structure and contents.\n\
         The 'Directory/File Tree' section displays the repository's hierarchy.\n\
         The 'File Content' section details the contents of each file.\n\
         File contents are marked with '[File Begins]' and '[File Ends]' tags.\n\n"
    );
}

#[test]
fn the_markdown_header_uses_headings() {
    let mut out = String::from("x");
    write_header(&mut out, &write_args(OutputFormat::Markdown));
    assert_eq!(
        out,
        "x# Repository Documentation\n\
         This document provides an overview of the repository's structure and contents.\n\n\
         ## Directory/File Tree\n\
         The following section displays the repository's hierarchy.\n\n\
         ## File Content\n\
         This section details the contents of each file.\n\n"
    );
}

#[test]
fn the_html_header_opens_the_document() {
    let mut out = String::new();
    write_header(&mut out, &write_args(OutputFormat::HTML));
    let expected = [
        "<!DOCTYPE html>",
        "<html lang=\"en\">",
        "<head>",
        "    <meta charset=\"UTF-8\">",
        "    <meta name=\"viewport\" content=\"width=device-width, initial-scale=1.0\">",
        "    <title>Repository Documentation</title>",
        "</head>",
        "<body>",
        "    <h1>Repository Documentation</h1>",
        "    <p>This document provides an overview of the repository's structure and contents.</p>",
        "    <h2>Directory/File Tree</h2>",
        "    <p>The following section displays the repository's hierarchy.</p>",
        "    <h2>File Content</h2>",
        "    <p>This section details the contents of each file.</p>",
    ];
    let mut text = String::new();
    for line in expected {
        text.push_str(line);
        text.push('\n');
    }
    assert_eq!(out, text);
}

#[test]
fn only_html_has_a_footer() {
    let mut out = String::from("a");
    write_footer(&mut out, &write_args(OutputFormat::Text));
    assert_eq!(out, "a");
    write_footer(&mut out, &write_args(OutputFormat::Markdown));
    assert_eq!(out, "a");
    write_footer(&mut out, &write_args(OutputFormat::HTML));
    assert_eq!(out, "a</body>\n</html>\n");
}

#[test]
fn the_tree_indents_by_depth_and_marks_what_lies_below_the_root() {
    let entries = vec![
        write_entry("", EntryKind::Directory),
        write_entry("a", EntryKind::Directory),
        write_entry("a/b.txt", EntryKind::File),
        write_entry("a/c/d/e.txt", EntryKind::File),
        write_entry("z.txt", EntryKind::File),
    ];
    let mut out = String::from("tree:\n");
    write_tree(&entries, &mut out);
    assert_eq!(
        out,
        "tree:\n\
         repo\n\
         \x20   \u{2514}\u{2500}\u{2500} a\n\
         \x20       \u{2514}\u{2500}\u{2500} b.txt\n\
         \x20               \u{2514}\u{2500}\u{2500} e.txt\n\
         \x20   \u{2514}\u{2500}\u{2500} z.txt\n"
    );
    let mut empty = String::new();
    write_tree(&Vec::new(), &mut empty);
    assert_eq!(empty, "");
}

#[test]
fn file_content_is_written_line_by_line() {
    let mut out = String::from(">");
    write_file_content(&write_strings(&["one", "", "  three"]), &mut out);
    assert_eq!(out, ">one\n\n  three\n");
    let mut none = String::new();
    write_file_content(&Vec::new(), &mut none);
    assert_eq!(none, "");
}

#[test]
fn file_sections_are_framed_by_markers_with_the_relative_path() {
    let entries = vec![
        write_entry("", EntryKind::Directory),
        write_entry("a", EntryKind::Directory),
        write_entry("a/b.txt", EntryKind::File),
        write_entry("broken.txt", EntryKind::File),
        write_entry("empty.txt", EntryKind::File),
        write_entry("late.txt", EntryKind::File),
    ];
    let contents = vec![
        None,
        // Lines handed in for a directory are not written.
        Some(write_strings(&["not a file"])),
        Some(write_strings(&["first", "second"])),
        None,
        Some(Vec::new()),
    ];
    let mut out = String::new();
    write_file_contents(&entries, &contents, &mut out);
    assert_eq!(
        out,
        "[File Begins] a/b.txt\nfirst\nsecond\n[File Ends] a/b.txt\n\
         [File Begins] empty.txt\n[File Ends] empty.txt\n"
    );
}

#[test]
fn the_repository_part_frames_tree_and_contents() {
    let entries = vec![write_entry("", EntryKind::Directory), write_entry("a.txt", EntryKind::File)];
    let contents = vec![None, Some(write_strings(&["hello"]))];
    let mut out = String::new();
    write_repository(&entries, &contents, &mut out);
    assert_eq!(
        out,
        "Directory/File Tree Begins -->\n\n\
         repo\n\
         \x20   \u{2514}\u{2500}\u{2500} a.txt\n\
         \n<-- Directory/File Tree Ends\n\
         \nFile Content Begins -->\n\n\
         [File Begins] a.txt\nhello\n[File Ends] a.txt\n\
         \n<-- File Content Ends\n\n"
    );
}

#[test]
fn test_default_output() {
    let output = write_document(&[("README.md", "# Sample Repo\n")], &write_args(OutputFormat::Text));
    assert!(output.contains("README.md"));
    assert!(output.contains("[File Begins] README.md"));
    assert!(output.contains("# Sample Repo"));
    assert!(output.contains("[File Ends] README.md"));
}

#[test]
fn an_ignored_file_appears_in_neither_tree_nor_contents() {
    let mut args = write_args(OutputFormat::Text);
    args.ignore_files = write_strings(&["ignored.txt"]);
    let output = write_document(
        &[("README.md", "# Sample Repo\n"), ("ignored.txt", "This should be ignored\n")],
        &args,
    );
    assert!(output.contains("[File Begins] README.md"));
    assert!(!output.contains("ignored.txt"));
    assert!(!output.contains("This should be ignored"));
}

#[test]
fn an_ignored_extension_appears_in_neither_tree_nor_contents() {
    let mut args = write_args(OutputFormat::Text);
    args.ignore_types = write_strings(&["json"]);
    let output = write_document(&[("test.json", "{}"), ("test.txt", "text")], &args);
    assert!(!output.contains("test.json"), "JSON file should be ignored");
    assert!(output.contains("test.txt"), "TXT file should be included");
}

#[test]
fn test_single_file_mode() {
    let mut out = String::new();
    write_header(&mut out, &write_args(OutputFormat::Text));
    write_file_content(&write_strings(&["single file content"]), &mut out);
    assert!(out.contains("single file content"));
    assert!(out.ends_with("tags.\n\nsingle file content\n"));
}

#[test]
fn test_output_formats() {
    let files = [("test.txt", "test content")];
    let text_content = write_document(&files, &write_args(OutputFormat::Text));
    assert!(text_content.contains("Repository Documentation"));
    assert!(!text_content.contains("</html>"));
    let md_content = write_document(&files, &write_args(OutputFormat::Markdown));
    assert!(md_content.contains("# Repository Documentation"));
    let html_content = write_document(&files, &write_args(OutputFormat::HTML));
    assert!(html_content.contains("<!DOCTYPE html>"));
    assert!(html_content.contains("</html>"));
    assert!(html_content.ends_with("<-- File Content Ends\n\n</body>\n</html>\n"));
}

#[test]
fn two_runs_give_the_same_document() {
    let files = [("b.txt", "b\nb"), ("a.txt", "a"), ("c.md", "")];
    for format in [OutputFormat::Text, OutputFormat::Markdown, OutputFormat::HTML] {
        let args = write_args(format);
        let first = write_document(&files, &args);
        let second = write_document(&files, &args);
        assert_eq!(first.as_bytes(), second.as_bytes());
    }
}
