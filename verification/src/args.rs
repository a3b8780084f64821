//! The run's options.

use crate::text::{
    chars_of, dedup, lemma_dedup, list_contains, slice_of, split, texts, trim_bounds, trimmed,
};
use vstd::prelude::*;
use vstd::string::*;

verus! {

/// The dialect of the generated document.
#[derive(Debug, Clone, Copy, PartialEq, Eq, Structural)]
pub enum OutputFormat {
    Text,
    Markdown,
    HTML,
}

/// The options of one run, fixed before traversal starts.
#[derive(Debug, Clone)]
pub struct Args {
    /// The directory to document.
    pub repo_path: String,
    /// The name of the generated document.
    pub output_file: String,
    /// File names that are left out.
    pub ignore_files: Vec<String>,
    /// Extensions, lower case and without dot, whose files are left out.
    pub ignore_types: Vec<String>,
    /// Names of directories that are left out with all they hold.
    pub exclude_dir: Vec<String>,
    /// The only subtree to document, if given.
    pub include_dir: Option<String>,
    /// Whether settings files are left out.
    pub ignore_settings: bool,
    /// Whether ignore rules found in the repository are honoured.
    pub use_gitignore: bool,
    /// A single file to document in place of a directory.
    pub file_path: Option<String>,
    /// A configuration file that overrides the built-in tables.
    pub config_path: Option<String>,
    /// Whether symbolic links to directories are entered.
    pub follow_symlinks: bool,
    /// The deepest level that is listed; the root is level 0.
    pub max_depth: usize,
    /// The dialect of the generated document.
    pub output_format: OutputFormat,
    /// Whether entries whose name starts with a dot are listed.
    pub include_hidden: bool,
}

/// The options as the command line gives them: the three list options are
/// still comma-separated texts.
#[derive(Debug, Clone)]
pub struct RawArgs {
    pub repo_path: String,
    pub output_file: String,
    pub ignore_files: String,
    pub ignore_types: String,
    pub exclude_dir: String,
    pub include_dir: Option<String>,
    pub ignore_settings: bool,
    pub use_gitignore: bool,
    pub file_path: Option<String>,
    pub config_path: Option<String>,
    pub follow_symlinks: bool,
    pub max_depth: usize,
    pub output_format: OutputFormat,
    pub include_hidden: bool,
}

/// Each text of `list` without surrounding whitespace.
pub open spec fn trim_all(list: Seq<Seq<char>>) -> Seq<Seq<char>> {
    Seq::new(list.len(), |i: int| trimmed(list[i]))
}

/// The items of a comma-separated list: the pieces between commas, each
/// without surrounding whitespace, each kept once, in order of first
/// occurrence. The empty text gives one empty item.
pub open spec fn set_items(s: Seq<char>) -> Seq<Seq<char>> {
    dedup(trim_all(split(s, ',')))
}

proof fn lemma_items_push(done: Seq<Seq<char>>, piece: Seq<char>)
    ensures
        dedup(trim_all(done.push(piece))) == if dedup(trim_all(done)).contains(trimmed(piece)) {
            dedup(trim_all(done))
        } else {
            dedup(trim_all(done)).push(trimmed(piece))
        },
{
    let all = trim_all(done.push(piece));
    assert(all == trim_all(done).push(trimmed(piece)));
    assert(all.drop_last() == trim_all(done));
    assert(all.last() == trimmed(piece));
}

/// Appends the trimmed piece of `s` between `from` and `to` unless the list
/// holds it already.
fn add_item(out: &mut Vec<String>, s: &str, chars: &Vec<char>, from: usize, to: usize)
    requires
        chars@ == s@,
        from <= to <= chars.len(),
    ensures
        ({
            let item = trimmed(s@.subrange(from as int, to as int));
            texts(final(out)@) == if texts(old(out)@).contains(item) {
                texts(old(out)@)
            } else {
                texts(old(out)@).push(item)
            }
        }),
{
    let (a, b) = trim_bounds(chars, from, to);
    let item = slice_of(s, a, b);
    if !list_contains(out, item.as_str()) {
        out.push(item);
        assert(texts(out@) == texts(old(out)@).push(item@));
    }
}

/// Parses a comma-separated list option into its set of items.
///
/// A set of texts has no item that can fail to parse, so the result is always
/// `Ok`. The list returned holds no item twice.
pub fn parse_set(s: &str) -> (r: Result<Vec<String>, String>)
    ensures
        r matches Ok(items) && texts(items@) == set_items(s@) && texts(items@).no_duplicates(),
{
    let chars = chars_of(s);
    let mut out: Vec<String> = Vec::new();
    let ghost mut done: Seq<Seq<char>> = Seq::empty();
    let mut start: usize = 0;
    let mut i: usize = 0;
    assert(texts(out@) == dedup(trim_all(done)));
    assert(s@.take(0).len() == 0);
    assert(s@.subrange(0, 0) =~= Seq::<char>::empty());
    assert(split(s@.take(0), ',') == done.push(s@.subrange(0, 0)));
    while i < chars.len()
        invariant
            start <= i <= chars.len(),
            chars@ == s@,
            split(s@.take(i as int), ',') == done.push(s@.subrange(start as int, i as int)),
            texts(out@) == dedup(trim_all(done)),
        decreases chars.len() - i,
    {
        let c = chars[i];
        proof {
            assert(s@.take(i + 1) == s@.take(i as int).push(c));
            crate::text::lemma_split_push(s@.take(i as int), c, ',');
            let piece = s@.subrange(start as int, i as int);
            assert(done.push(piece).drop_last() == done);
            assert(done.push(piece).last() == piece);
            assert(piece.push(c) == s@.subrange(start as int, i + 1));
        }
        if c == ',' {
            add_item(&mut out, s, &chars, start, i);
            proof {
                lemma_items_push(done, s@.subrange(start as int, i as int));
                done = done.push(s@.subrange(start as int, i as int));
                assert(s@.subrange(i + 1, i + 1) =~= Seq::<char>::empty());
            }
            start = i + 1;
        }
        i += 1;
    }
    add_item(&mut out, s, &chars, start, chars.len());
    proof {
        lemma_items_push(done, s@.subrange(start as int, chars.len() as int));
        assert(s@.take(chars.len() as int) == s@);
        lemma_dedup(trim_all(split(s@, ',')));
    }
    Ok(out)
}

/// The options that `raw` stands for: every value as given, the three list
/// options parsed into their sets.
pub fn parse_args(raw: &RawArgs) -> (r: Result<Args, String>)
    ensures
        r matches Ok(args) && {
            &&& args.repo_path@ == raw.repo_path@
            &&& args.output_file@ == raw.output_file@
            &&& texts(args.ignore_files@) == set_items(raw.ignore_files@)
            &&& texts(args.ignore_types@) == set_items(raw.ignore_types@)
            &&& texts(args.exclude_dir@) == set_items(raw.exclude_dir@)
            &&& args.include_dir == raw.include_dir
            &&& args.ignore_settings == raw.ignore_settings
            &&& args.use_gitignore == raw.use_gitignore
            &&& args.file_path == raw.file_path
            &&& args.config_path == raw.config_path
            &&& args.follow_symlinks == raw.follow_symlinks
            &&& args.max_depth == raw.max_depth
            &&& args.output_format == raw.output_format
            &&& args.include_hidden == raw.include_hidden
        },
{
    let ignore_files = match parse_set(raw.ignore_files.as_str()) {
        Ok(items) => items,
        Err(message) => {
            return Err(message);
        },
    };
    let ignore_types = match parse_set(raw.ignore_types.as_str()) {
        Ok(items) => items,
        Err(message) => {
            return Err(message);
        },
    };
    let exclude_dir = match parse_set(raw.exclude_dir.as_str()) {
        Ok(items) => items,
        Err(message) => {
            return Err(message);
        },
    };
    Ok(
        Args {
            repo_path: raw.repo_path.clone(),
            output_file: raw.output_file.clone(),
            ignore_files,
            ignore_types,
            exclude_dir,
            include_dir: raw.include_dir.clone(),
            ignore_settings: raw.ignore_settings,
            use_gitignore: raw.use_gitignore,
            file_path: raw.file_path.clone(),
            config_path: raw.config_path.clone(),
            follow_symlinks: raw.follow_symlinks,
            max_depth: raw.max_depth,
            output_format: raw.output_format,
            include_hidden: raw.include_hidden,
        },
    )
}

} // verus!
