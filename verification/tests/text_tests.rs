use repo2txt::args::{parse_args, parse_set, OutputFormat, RawArgs};
use repo2txt::classify::{extension_of, lowered_extension_of, path_parts_of, path_relation};
use repo2txt::text::{
    char_is_whitespace, chars_eq, chars_of, list_contains, slice_of, split_chars, text_eq, text_lt,
    trim_bounds,
};
use repo2txt::visited::VisitedSet;

fn text_strings(items: &[&str]) -> Vec<String> {
    items.iter().map(|s| s.to_string()).collect()
}

fn text_chars(s: &str) -> Vec<char> {
    s.chars().collect()
}

#[test]
fn parse_set_splits_trims_and_keeps_first_occurrences() {
    assert_eq!(parse_set("a, b ,a,c").unwrap(), text_strings(&["a", "b", "c"]));
    assert_eq!(parse_set("x,y").unwrap(), text_strings(&["x", "y"]));
    assert_eq!(parse_set(" b , a , b ").unwrap(), text_strings(&["b", "a"]));
}

#[test]
fn parse_set_of_the_empty_text_is_one_empty_item() {
    assert_eq!(parse_set("").unwrap(), text_strings(&[""]));
    assert_eq!(parse_set("   ").unwrap(), text_strings(&[""]));
    assert_eq!(parse_set(",").unwrap(), text_strings(&[""]));
    assert_eq!(parse_set("a,,b,").unwrap(), text_strings(&["a", "", "b"]));
}

#[test]
fn parse_set_reads_the_default_excluded_directories() {
    assert_eq!(
        parse_set("node_modules,vendor,dist,build,target").unwrap(),
        text_strings(&["node_modules", "vendor", "dist", "build", "target"])
    );
}

#[test]
fn parse_set_trims_unicode_whitespace_only_at_the_ends() {
    assert_eq!(
        parse_set("\u{3000}x y\u{a0},\t\nz\r").unwrap(),
        text_strings(&["x y", "z"])
    );
    // U+200B is no whitespace and stays.
    assert_eq!(parse_set("\u{200b}a").unwrap(), text_strings(&["\u{200b}a"]));
}

#[test]
fn parse_set_agrees_with_the_standard_trim() {
    for s in ["  a  ,b\u{2003}", "\u{85}q\u{2028},\u{1680}r\u{205f}", "\u{202f}s\u{2029}"] {
        let expected: Vec<String> = s.split(',').map(str::trim).map(str::to_string).collect();
        assert_eq!(parse_set(s).unwrap(), expected);
    }
}

#[test]
fn whitespace_is_the_unicode_white_space_set() {
    for u in 0u32..0x3100 {
        if let Some(c) = char::from_u32(u) {
            assert_eq!(char_is_whitespace(c), c.is_whitespace(), "U+{:04X}", u);
        }
    }
}

#[test]
fn parse_args_parses_the_three_lists_and_keeps_the_rest() {
    let raw = RawArgs {
        repo_path: ".".to_string(),
        output_file: "output.txt".to_string(),
        ignore_files: "a.txt, b.txt".to_string(),
        ignore_types: "".to_string(),
        exclude_dir: "node_modules,vendor,dist,build,target".to_string(),
        include_dir: Some("src".to_string()),
        ignore_settings: true,
        use_gitignore: true,
        file_path: None,
        config_path: Some("cfg.json".to_string()),
        follow_symlinks: false,
        max_depth: 100,
        output_format: OutputFormat::Markdown,
        include_hidden: false,
    };
    let args = parse_args(&raw).unwrap();
    assert_eq!(args.repo_path, ".");
    assert_eq!(args.output_file, "output.txt");
    assert_eq!(args.ignore_files, text_strings(&["a.txt", "b.txt"]));
    assert_eq!(args.ignore_types, text_strings(&[""]));
    assert_eq!(
        args.exclude_dir,
        text_strings(&["node_modules", "vendor", "dist", "build", "target"])
    );
    assert_eq!(args.include_dir, Some("src".to_string()));
    assert!(args.ignore_settings);
    assert!(args.use_gitignore);
    assert_eq!(args.file_path, None);
    assert_eq!(args.config_path, Some("cfg.json".to_string()));
    assert!(!args.follow_symlinks);
    assert_eq!(args.max_depth, 100);
    assert_eq!(args.output_format, OutputFormat::Markdown);
    assert!(!args.include_hidden);
}

#[test]
fn split_gives_the_pieces_between_separators() {
    let pieces = split_chars(&text_chars("a/b//c"), '/');
    assert_eq!(
        pieces,
        vec![text_chars("a"), text_chars("b"), text_chars(""), text_chars("c")]
    );
    assert_eq!(split_chars(&text_chars(""), '/'), vec![text_chars("")]);
    assert_eq!(split_chars(&text_chars("/"), '/'), vec![text_chars(""), text_chars("")]);
    assert_eq!(split_chars(&text_chars("abc"), ','), vec![text_chars("abc")]);
}

#[test]
fn trim_bounds_delimit_the_trimmed_part() {
    let s = text_chars("  ab c \t");
    assert_eq!(trim_bounds(&s, 0, s.len()), (2, 6));
    assert_eq!(trim_bounds(&s, 3, 5), (3, 4));
    let blank = text_chars("   ");
    let (a, b) = trim_bounds(&blank, 0, 3);
    assert_eq!(a, b);
}

#[test]
fn chars_and_slices_follow_characters_not_bytes() {
    assert_eq!(chars_of("h\u{e9}llo"), text_chars("h\u{e9}llo"));
    assert_eq!(slice_of("h\u{e9}llo", 1, 3), "\u{e9}l");
    assert_eq!(slice_of("abc", 0, 0), "");
    assert_eq!(slice_of("abc", 0, 3), "abc");
}

#[test]
fn text_equality_and_membership() {
    assert!(text_eq("abc", "abc"));
    assert!(!text_eq("abc", "abd"));
    assert!(!text_eq("abc", "ab"));
    assert!(text_eq("", ""));
    assert!(chars_eq(&text_chars("xy"), &text_chars("xy")));
    assert!(!chars_eq(&text_chars("xy"), &text_chars("yx")));
    let list = text_strings(&["a", "bc", ""]);
    assert!(list_contains(&list, "bc"));
    assert!(list_contains(&list, ""));
    assert!(!list_contains(&list, "b"));
    assert!(!list_contains(&Vec::new(), "a"));
}

#[test]
fn lexicographic_order_is_strict_and_by_code_point() {
    assert!(text_lt("a", "b"));
    assert!(!text_lt("b", "a"));
    assert!(!text_lt("a", "a"));
    assert!(text_lt("", "a"));
    assert!(!text_lt("a", ""));
    assert!(!text_lt("", ""));
    assert!(text_lt("ab", "abc"));
    assert!(text_lt("B", "a"));
    assert!(text_lt("a/b", "a0"));
    assert!(text_lt("z", "\u{e9}"));
    for (a, b) in [("file_1", "file_10"), ("x/y", "x.y"), ("Z", "a"), ("\u{1F600}", "\u{e9}")] {
        assert_eq!(text_lt(a, b), a < b);
        assert_eq!(text_lt(b, a), b < a);
    }
}

#[test]
fn extension_is_what_follows_the_last_dot() {
    assert_eq!(extension_of("a.tar.gz"), Some("gz".to_string()));
    assert_eq!(extension_of("test.json"), Some("json".to_string()));
    assert_eq!(extension_of("Makefile"), None);
    assert_eq!(extension_of(".gitignore"), None);
    assert_eq!(extension_of(".a.b"), Some("b".to_string()));
    assert_eq!(extension_of("foo."), Some("".to_string()));
    assert_eq!(extension_of(""), None);
    assert_eq!(extension_of("."), None);
    assert_eq!(extension_of("a.B"), Some("B".to_string()));
}

#[test]
fn extension_agrees_with_the_standard_path() {
    for name in ["a.tar.gz", "x", ".hidden", ".a.b", "foo.", "photo.JPG", "a..b", "..a"] {
        let expected = std::path::Path::new(name)
            .extension()
            .map(|e| e.to_str().unwrap().to_string());
        assert_eq!(extension_of(name), expected, "{}", name);
    }
}

#[test]
fn lowered_extension_is_lower_case() {
    assert_eq!(lowered_extension_of("PHOTO.JPG"), Some("jpg".to_string()));
    assert_eq!(lowered_extension_of("a.Json"), Some("json".to_string()));
    assert_eq!(lowered_extension_of("a.\u{c9}T\u{c9}"), Some("\u{e9}t\u{e9}".to_string()));
    assert_eq!(lowered_extension_of("README"), None);
}

#[test]
fn path_parts_leave_out_empty_and_dot_pieces() {
    assert_eq!(path_parts_of("/a/b"), vec![text_chars("a"), text_chars("b")]);
    assert_eq!(path_parts_of("a//b/"), vec![text_chars("a"), text_chars("b")]);
    assert_eq!(path_parts_of("./a/./b"), vec![text_chars("a"), text_chars("b")]);
    assert_eq!(path_parts_of("a/../b"), vec![text_chars("a"), text_chars(".."), text_chars("b")]);
    assert_eq!(path_parts_of(""), Vec::<Vec<char>>::new());
    assert_eq!(path_parts_of("/"), Vec::<Vec<char>>::new());
}

#[test]
fn a_path_lies_in_a_directory_or_leads_to_it_by_components() {
    // (lies in, leads to)
    assert_eq!(path_relation("/r/src/a.rs", "/r/src"), (true, false));
    assert_eq!(path_relation("/r/src", "/r/src"), (true, true));
    assert_eq!(path_relation("/r", "/r/src"), (false, true));
    assert_eq!(path_relation("/", "/r/src"), (false, true));
    assert_eq!(path_relation("/r/src/", "/r//src"), (true, true));
    assert_eq!(path_relation("/r/srcs", "/r/src"), (false, false));
    assert_eq!(path_relation("/r/other", "/r/src"), (false, false));
    assert_eq!(path_relation("/r/other/src", "/r/src"), (false, false));
    assert_eq!(path_relation("r/src/a", "/r/src"), (false, false));
    assert_eq!(path_relation("r/src/a", "r/src"), (true, false));
    assert_eq!(path_relation("./r/src/a", "r/src"), (true, false));
    assert_eq!(path_relation("", "r"), (false, true));
}

#[test]
fn visited_set_reports_new_paths_once() {
    let mut set = VisitedSet::new();
    assert!(!set.contains("/a"));
    assert!(set.insert("/a".to_string()));
    assert!(set.contains("/a"));
    assert!(!set.insert("/a".to_string()));
    assert!(set.insert("/a/b".to_string()));
    assert!(set.insert("/A".to_string()));
    assert!(!set.insert("/a/b".to_string()));
    assert!(set.contains("/A"));
    assert!(!set.contains("/b"));
}
