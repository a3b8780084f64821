//! The inclusion decision for one entry.
//!
//! The rules are tried in a fixed order and the first that applies decides.
//!
//! - The generated document is recognised by its canonical path; an entry
//!   whose path cannot be resolved is classified by the other rules.
//! - Depth counts path components below the root: the root is at depth 0, its
//!   children at depth 1, and an entry is too deep when its depth exceeds the
//!   configured maximum.
//! - Extensions are compared in lower case. Configured extensions replace the
//!   default table: the table applies only where none is configured.
//! - Glob patterns are matched against the file name, never the whole path.

use crate::args::Args;
use crate::config::Config;
use crate::entry::{Entry, EntryKind, EntryView};
use crate::matcher::{glob_set_matches, CompiledMatcher};
use crate::text::{
    char_texts, chars_eq, chars_of, is_prefix, last_index_of, list_contains, lowercase, slice_of,
    split, split_chars, text_eq, texts, to_lowercase,
};
use vstd::prelude::*;
use vstd::string::*;

verus! {

/// The outcome of classifying an entry: included, or the rule that excludes it.
#[derive(Debug, Clone, Copy, PartialEq, Eq, Structural)]
pub enum Verdict {
    Include,
    /// The entry resolves to the canonical path of the generated document.
    OutputFile,
    /// An include directory is set, and the entry neither lies in it nor is a
    /// directory that leads to it.
    OutsideIncludeDir,
    /// The entry lies deeper than the configured maximum.
    TooDeep,
    /// A directory whose name is excluded.
    ExcludedDir,
    /// A file whose name is ignored.
    IgnoredFileName,
    /// A file whose extension is ignored.
    IgnoredExtension,
    /// A file whose extension is in the default table, no extension being configured.
    DefaultIgnoredType,
    /// A settings file, while settings files are ignored.
    SettingsFile,
    /// A hidden entry, while hidden entries are left out.
    Hidden,
    /// The name matches one of the matcher's patterns.
    PatternMatch,
}

/// A path segment that names something: not empty and not `.`.
pub open spec fn is_real_segment(seg: Seq<char>) -> bool {
    seg.len() > 0 && !(seg.len() == 1 && seg[0] == '.')
}

/// The segments of `segs` that name something.
pub open spec fn keep_real(segs: Seq<Seq<char>>) -> Seq<Seq<char>>
    decreases segs.len(),
{
    if segs.len() == 0 {
        Seq::<Seq<char>>::empty()
    } else if is_real_segment(segs.last()) {
        keep_real(segs.drop_last()).push(segs.last())
    } else {
        keep_real(segs.drop_last())
    }
}

/// The components of a path: its pieces between slashes, without empty
/// pieces and `.` pieces.
pub open spec fn path_parts(path: Seq<char>) -> Seq<Seq<char>> {
    keep_real(split(path, '/'))
}

/// Whether a path starts at the file system's root.
pub open spec fn is_absolute(path: Seq<char>) -> bool {
    path.len() > 0 && path[0] == '/'
}

/// `path` is `dir` or lies below it, component by component.
pub open spec fn within(path: Seq<char>, dir: Seq<char>) -> bool {
    is_absolute(path) == is_absolute(dir) && is_prefix(path_parts(dir), path_parts(path))
}

/// `path` is `dir` or one of the directories above it.
pub open spec fn leads_to(path: Seq<char>, dir: Seq<char>) -> bool {
    is_absolute(path) == is_absolute(dir) && is_prefix(path_parts(path), path_parts(dir))
}

/// Whether an entry has a place in a traversal confined to `dir`: it lies in
/// `dir`, or it is a directory that leads to `dir`.
pub open spec fn reaches(entry: EntryView, dir: Seq<char>) -> bool {
    within(entry.path, dir) || (entry.kind == EntryKind::Directory && leads_to(entry.path, dir))
}

/// The extension of a file name: what follows its last dot, unless the name
/// has no dot or its only dot comes first.
pub open spec fn extension(name: Seq<char>) -> Option<Seq<char>> {
    match last_index_of(name, '.') {
        Some(at) => if at > 0 {
            Some(name.subrange(at + 1, name.len() as int))
        } else {
            None
        },
        None => None,
    }
}

/// The extension of a file name in lower case.
pub open spec fn lowered_extension(name: Seq<char>) -> Option<Seq<char>> {
    match extension(name) {
        Some(ext) => Some(lowercase(ext)),
        None => None,
    }
}

/// Whether `ext` is the extension of a settings file.
pub open spec fn is_settings_extension(ext: Seq<char>) -> bool {
    ext == "json"@ || ext == "yaml"@ || ext == "yml"@ || ext == "xml"@
}

/// Whether a name marks a hidden entry.
pub open spec fn is_hidden_name(name: Seq<char>) -> bool {
    name.len() > 0 && name[0] == '.'
}

/// The verdict on an entry, given its lower-cased extension and whether the
/// matcher's patterns match its name. The first rule that applies decides.
pub open spec fn verdict_of(
    entry: EntryView,
    args: &Args,
    config: &Config,
    output: Seq<char>,
    ext: Option<Seq<char>>,
    pattern_hit: bool,
) -> Verdict {
    if entry.canonical == Some(output) {
        Verdict::OutputFile
    } else if args.include_dir is Some && !reaches(entry, args.include_dir->0@) {
        Verdict::OutsideIncludeDir
    } else if entry.depth > args.max_depth {
        Verdict::TooDeep
    } else if entry.kind == EntryKind::Directory && texts(args.exclude_dir@).contains(entry.name) {
        Verdict::ExcludedDir
    } else if entry.kind == EntryKind::File && texts(args.ignore_files@).contains(entry.name) {
        Verdict::IgnoredFileName
    } else if entry.kind == EntryKind::File && ext is Some && texts(args.ignore_types@).contains(
        ext->0,
    ) {
        Verdict::IgnoredExtension
    } else if entry.kind == EntryKind::File && args.ignore_types@.len() == 0 && ext is Some
        && texts(config.default_ignore_types@).contains(ext->0) {
        Verdict::DefaultIgnoredType
    } else if args.ignore_settings && ext is Some && is_settings_extension(ext->0) {
        Verdict::SettingsFile
    } else if !args.include_hidden && is_hidden_name(entry.name) {
        Verdict::Hidden
    } else if pattern_hit {
        Verdict::PatternMatch
    } else {
        Verdict::Include
    }
}

/// The verdict on an entry under a configuration and the matcher's patterns.
pub open spec fn entry_verdict(
    entry: EntryView,
    sources: Seq<Seq<char>>,
    args: &Args,
    config: &Config,
    output: Seq<char>,
) -> Verdict {
    verdict_of(
        entry,
        args,
        config,
        output,
        lowered_extension(entry.name),
        glob_set_matches(sources, entry.name),
    )
}

/// Whether an entry is left out.
pub open spec fn ignored(
    entry: EntryView,
    sources: Seq<Seq<char>>,
    args: &Args,
    config: &Config,
    output: Seq<char>,
) -> bool {
    entry_verdict(entry, sources, args, config, output) != Verdict::Include
}

proof fn lemma_keep_real_push(segs: Seq<Seq<char>>, seg: Seq<char>)
    ensures
        keep_real(segs.push(seg)) == if is_real_segment(seg) {
            keep_real(segs).push(seg)
        } else {
            keep_real(segs)
        },
{
    assert(segs.push(seg).drop_last() == segs);
}

/// The components of a path.
pub fn path_parts_of(path: &str) -> (r: Vec<Vec<char>>)
    ensures
        char_texts(r@) == path_parts(path@),
{
    let chars = chars_of(path);
    let segs = split_chars(&chars, '/');
    let ghost all = char_texts(segs@);
    let mut out: Vec<Vec<char>> = Vec::new();
    let mut i: usize = 0;
    proof {
        assert(char_texts(out@) == keep_real(all.take(0)));
    }
    while i < segs.len()
        invariant
            i <= segs.len(),
            all == char_texts(segs@),
            char_texts(out@) == keep_real(all.take(i as int)),
        decreases segs.len() - i,
    {
        let seg = &segs[i];
        proof {
            assert(all.take(i + 1) == all.take(i as int).push(seg@));
            lemma_keep_real_push(all.take(i as int), seg@);
        }
        if seg.len() > 0 && !(seg.len() == 1 && seg[0] == '.') {
            let ghost before = char_texts(out@);
            let copy = seg.clone();
            assert(copy@ == seg@);
            out.push(copy);
            assert(char_texts(out@) == before.push(seg@));
        }
        i += 1;
    }
    proof {
        assert(all.take(segs.len() as int) == all);
    }
    out
}

/// Whether the texts of `a` are an initial part of the texts of `b`.
fn parts_prefix(a: &Vec<Vec<char>>, b: &Vec<Vec<char>>) -> (r: bool)
    ensures
        r == is_prefix(char_texts(a@), char_texts(b@)),
{
    if a.len() > b.len() {
        return false;
    }
    let ghost x = char_texts(a@);
    let ghost y = char_texts(b@);
    let mut i: usize = 0;
    while i < a.len()
        invariant
            i <= a.len() <= b.len(),
            x == char_texts(a@),
            y == char_texts(b@),
            y.take(i as int) == x.take(i as int),
        decreases a.len() - i,
    {
        if !chars_eq(&a[i], &b[i]) {
            proof {
                assert(x[i as int] != y[i as int]);
                if y.take(x.len() as int) == x {
                    assert(y.take(x.len() as int)[i as int] == x[i as int]);
                }
            }
            return false;
        }
        proof {
            assert(x.take(i + 1) == x.take(i as int).push(x[i as int]));
            assert(y.take(i + 1) == y.take(i as int).push(y[i as int]));
        }
        i += 1;
    }
    proof {
        assert(x.take(x.len() as int) == x);
    }
    true
}

/// Whether `path` lies in `dir`, and whether it leads to `dir`.
pub fn path_relation(path: &str, dir: &str) -> (r: (bool, bool))
    ensures
        r.0 == within(path@, dir@),
        r.1 == leads_to(path@, dir@),
{
    let p = chars_of(path);
    let d = chars_of(dir);
    let p_abs = p.len() > 0 && p[0] == '/';
    let d_abs = d.len() > 0 && d[0] == '/';
    if p_abs != d_abs {
        return (false, false);
    }
    let pp = path_parts_of(path);
    let dp = path_parts_of(dir);
    (parts_prefix(&dp, &pp), parts_prefix(&pp, &dp))
}

proof fn lemma_last_index_take(s: Seq<char>, c: char, from: int)
    requires
        0 <= from <= s.len(),
        forall|j: int| from <= j < s.len() ==> s[j] != c,
    ensures
        last_index_of(s, c) == last_index_of(s.take(from), c),
    decreases s.len() - from,
{
    if from < s.len() {
        assert(s.drop_last().take(from) == s.take(from));
        lemma_last_index_take(s.drop_last(), c, from);
    } else {
        assert(s.take(from) == s);
    }
}

/// The extension of a file name.
pub fn extension_of(name: &str) -> (r: Option<String>)
    ensures
        crate::entry::opt_text(r) == extension(name@),
{
    let chars = chars_of(name);
    let mut i: usize = chars.len();
    while i > 0 && chars[i - 1] != '.'
        invariant
            i <= chars.len(),
            forall|j: int| i <= j < chars.len() ==> chars@[j] != '.',
        decreases i,
    {
        i -= 1;
    }
    proof {
        lemma_last_index_take(chars@, '.', i as int);
        if i > 0 {
            assert(chars@.take(i as int).last() == chars@[i - 1]);
        }
    }
    if i > 1 {
        Some(slice_of(name, i, chars.len()))
    } else {
        None
    }
}

/// The extension of a file name in lower case.
pub fn lowered_extension_of(name: &str) -> (r: Option<String>)
    ensures
        crate::entry::opt_text(r) == lowered_extension(name@),
{
    match extension_of(name) {
        Some(ext) => Some(to_lowercase(ext.as_str())),
        None => None,
    }
}

/// Classifies an entry, given its lower-cased extension and whether the
/// matcher's patterns match its name.
pub fn classify(
    entry: &Entry,
    args: &Args,
    config: &Config,
    output_file_path: &str,
    ext: &Option<String>,
    pattern_hit: bool,
) -> (r: Verdict)
    ensures
        r == verdict_of(
            entry@,
            args,
            config,
            output_file_path@,
            crate::entry::opt_text(*ext),
            pattern_hit,
        ),
{
    if let Some(canonical) = &entry.canonical {
        if text_eq(canonical.as_str(), output_file_path) {
            return Verdict::OutputFile;
        }
    }
    if let Some(dir) = &args.include_dir {
        let (inside, leads) = path_relation(entry.path.as_str(), dir.as_str());
        if !inside && !(entry.kind == EntryKind::Directory && leads) {
            return Verdict::OutsideIncludeDir;
        }
    }
    if entry.depth > args.max_depth {
        return Verdict::TooDeep;
    }
    let name = entry.name.as_str();
    if entry.kind == EntryKind::Directory && list_contains(&args.exclude_dir, name) {
        return Verdict::ExcludedDir;
    }
    if entry.kind == EntryKind::File {
        if list_contains(&args.ignore_files, name) {
            return Verdict::IgnoredFileName;
        }
        if let Some(e) = ext {
            if list_contains(&args.ignore_types, e.as_str()) {
                return Verdict::IgnoredExtension;
            }
            if args.ignore_types.len() == 0 && list_contains(
                &config.default_ignore_types,
                e.as_str(),
            ) {
                return Verdict::DefaultIgnoredType;
            }
        }
    }
    if args.ignore_settings {
        if let Some(e) = ext {
            let e = e.as_str();
            if text_eq(e, "json") || text_eq(e, "yaml") || text_eq(e, "yml") || text_eq(e, "xml") {
                return Verdict::SettingsFile;
            }
        }
    }
    if !args.include_hidden {
        let chars = chars_of(name);
        if chars.len() > 0 && chars[0] == '.' {
            return Verdict::Hidden;
        }
    }
    if pattern_hit {
        return Verdict::PatternMatch;
    }
    Verdict::Include
}

/// The verdict on an entry under a configuration and a compiled matcher.
pub fn verdict(
    entry: &Entry,
    matcher: &CompiledMatcher,
    args: &Args,
    config: &Config,
    output_file_path: &str,
) -> (r: Verdict)
    ensures
        r == entry_verdict(entry@, matcher.sources(), args, config, output_file_path@),
{
    let ext = lowered_extension_of(entry.name.as_str());
    let pattern_hit = matcher.matches(entry.name.as_str());
    classify(entry, args, config, output_file_path, &ext, pattern_hit)
}

/// Whether an entry is listed: whether no rule excludes it.
pub fn should_include(
    entry: &Entry,
    matcher: &CompiledMatcher,
    args: &Args,
    config: &Config,
    output_file_path: &str,
) -> (r: bool)
    ensures
        r == !ignored(entry@, matcher.sources(), args, config, output_file_path@),
{
    verdict(entry, matcher, args, config, output_file_path) == Verdict::Include
}

/// Whether an entry is left out of the traversal.
pub fn is_ignored(
    entry: &Entry,
    matcher: &CompiledMatcher,
    args: &Args,
    config: &Config,
    output_file_path: &str,
) -> (r: bool)
    ensures
        r == ignored(entry@, matcher.sources(), args, config, output_file_path@),
{
    verdict(entry, matcher, args, config, output_file_path) != Verdict::Include
}

} // verus!
