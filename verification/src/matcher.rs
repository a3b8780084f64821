//! The compiled glob matcher for ignored file names and extensions.
//!
//! Glob syntax and matching are the `globset` crate's. This module states what
//! the rest of the library relies on: which patterns a matcher holds, and that
//! a match is a function of those patterns and the candidate name.

use crate::args::Args;
use crate::config::Config;
use crate::text::{chars_of, slice_of, strip_leading, texts};
use globset::{Glob, GlobSet, GlobSetBuilder};
use vstd::prelude::*;
use vstd::string::*;

verus! {

/// `globset::Glob`, a parsed pattern; nothing inside it is visible here.
#[verifier::external_type_specification]
#[verifier::external_body]
pub struct ExGlob(globset::Glob);

/// `globset::GlobSet`, a compiled set of patterns; nothing inside it is
/// visible here.
#[verifier::external_type_specification]
#[verifier::external_body]
pub struct ExGlobSet(globset::GlobSet);

/// `globset::GlobSetBuilder`, the list of patterns for a set; nothing inside
/// it is visible here.
#[verifier::external_type_specification]
#[verifier::external_body]
pub struct ExGlobSetBuilder(globset::GlobSetBuilder);

/// `globset::Error`, why a pattern or a set was refused; nothing inside it is
/// visible here.
#[verifier::external_type_specification]
#[verifier::external_body]
pub struct ExGlobError(globset::Error);

/// Whether `globset` accepts `pattern` as a glob under its default options.
pub uninterp spec fn glob_is_valid(pattern: Seq<char>) -> bool;

/// The pattern text that a glob was parsed from under the default options.
pub uninterp spec fn glob_source(glob: Glob) -> Seq<char>;

/// The pattern texts of the globs added to a builder, in the order added.
pub uninterp spec fn builder_sources(builder: GlobSetBuilder) -> Seq<Seq<char>>;

/// The pattern texts of the globs that a set was built from.
pub uninterp spec fn set_sources(set: GlobSet) -> Seq<Seq<char>>;

/// Whether `globset` can compile globs with these pattern texts into one set.
pub uninterp spec fn glob_set_compiles(sources: Seq<Seq<char>>) -> bool;

/// Whether some glob among `sources` matches `candidate`, as `globset` decides
/// it under its default options.
pub uninterp spec fn glob_set_matches(sources: Seq<Seq<char>>, candidate: Seq<char>) -> bool;

/// `globset::Glob::new`: parses a pattern under the default options. The
/// result is a glob carrying the pattern's text exactly when the crate accepts
/// the pattern, and the crate's error otherwise.
#[verifier::external_body]
fn parse_glob(pattern: &str) -> (r: Result<Glob, globset::Error>)
    ensures
        r is Ok <==> glob_is_valid(pattern@),
        r matches Ok(glob) ==> glob_source(glob) == pattern@,
{
    Glob::new(pattern)
}

/// `globset::GlobSetBuilder::new`: a builder that holds no glob.
#[verifier::external_body]
fn new_builder() -> (r: GlobSetBuilder)
    ensures
        builder_sources(r) == Seq::<Seq<char>>::empty(),
{
    GlobSetBuilder::new()
}

/// `globset::GlobSetBuilder::add`: appends one glob to the builder's list.
#[verifier::external_body]
fn builder_add(builder: &mut GlobSetBuilder, glob: Glob)
    ensures
        builder_sources(*final(builder)) == builder_sources(*old(builder)).push(glob_source(glob)),
{
    builder.add(glob);
}

/// `globset::GlobSetBuilder::build`: compiles the globs added so far. On
/// success the set holds exactly the builder's globs; whether it succeeds
/// depends on the globs alone.
#[verifier::external_body]
fn builder_build(builder: &GlobSetBuilder) -> (r: Result<GlobSet, globset::Error>)
    ensures
        r is Ok <==> glob_set_compiles(builder_sources(*builder)),
        r matches Ok(set) ==> set_sources(set) == builder_sources(*builder),
{
    builder.build()
}

/// `globset::GlobSet::is_match`: whether any glob of the set matches the
/// candidate, here always a bare file name.
#[verifier::external_body]
fn set_is_match(set: &GlobSet, candidate: &str) -> (r: bool)
    ensures
        r == glob_set_matches(set_sources(*set), candidate@),
{
    set.is_match(candidate)
}

/// `ToString::to_string` on a `globset::Error`: the error's `Display` text.
/// Nothing is claimed of the text.
#[verifier::external_body]
fn error_text(error: &globset::Error) -> (r: String) {
    error.to_string()
}

/// Why a matcher could not be compiled.
#[derive(Debug)]
pub enum ConfigError {
    /// An ignore-file-name entry is not a valid glob.
    IgnoreFilePattern { pattern: String, reason: String },
    /// An ignore-extension entry does not give a valid glob.
    IgnoreTypePattern { pattern: String, reason: String },
    /// The patterns are valid one by one but cannot be compiled together.
    Build { reason: String },
}

impl ConfigError {
    /// The message that reports this error.
    pub fn message(&self) -> (r: String)
        ensures
            r@ == self.message_text(),
    {
        match self {
            ConfigError::IgnoreFilePattern { pattern, reason } => {
                String::from_str("Invalid ignore file pattern '").concat(pattern.as_str()).concat(
                    "': ",
                ).concat(reason.as_str())
            },
            ConfigError::IgnoreTypePattern { pattern, reason } => {
                String::from_str("Invalid ignore type pattern '").concat(pattern.as_str()).concat(
                    "': ",
                ).concat(reason.as_str())
            },
            ConfigError::Build { reason } => {
                String::from_str("Failed to build GlobSet: ").concat(reason.as_str())
            },
        }
    }

    /// The text of `message`.
    pub open spec fn message_text(&self) -> Seq<char> {
        match self {
            ConfigError::IgnoreFilePattern { pattern, reason } => {
                "Invalid ignore file pattern '"@ + pattern@ + "': "@ + reason@
            },
            ConfigError::IgnoreTypePattern { pattern, reason } => {
                "Invalid ignore type pattern '"@ + pattern@ + "': "@ + reason@
            },
            ConfigError::Build { reason } => "Failed to build GlobSet: "@ + reason@,
        }
    }
}

/// The glob for one ignored extension: `*.` before the entry without its
/// leading dots.
pub open spec fn type_glob(entry: Seq<char>) -> Seq<char> {
    "*."@ + strip_leading(entry, '.')
}

/// The globs for a list of ignored extensions.
pub open spec fn type_globs(entries: Seq<Seq<char>>) -> Seq<Seq<char>> {
    Seq::new(entries.len(), |i: int| type_glob(entries[i]))
}

/// The extension entries that take part in matching: the configured ones, or
/// the default table when none is configured.
pub open spec fn effective_types(args: &Args, config: &Config) -> Seq<Seq<char>> {
    if args.ignore_types@.len() == 0 {
        texts(config.default_ignore_types@)
    } else {
        texts(args.ignore_types@)
    }
}

/// The pattern texts of the matcher for a configuration: each ignored file
/// name as it stands, then one glob for each effective extension entry.
pub open spec fn matcher_sources(args: &Args, config: &Config) -> Seq<Seq<char>> {
    texts(args.ignore_files@) + type_globs(effective_types(args, config))
}

/// Every pattern of `sources` before position `n` is a valid glob.
pub open spec fn all_valid(sources: Seq<Seq<char>>, n: int) -> bool {
    forall|i: int| 0 <= i < n && i < sources.len() ==> glob_is_valid(#[trigger] sources[i])
}

/// A set of globs compiled once and matched against file names.
pub struct CompiledMatcher {
    set: GlobSet,
}

impl CompiledMatcher {
    /// The pattern texts this matcher was compiled from.
    pub closed spec fn sources(&self) -> Seq<Seq<char>> {
        set_sources(self.set)
    }

    /// Whether some pattern matches `name`, the file-name component of a path.
    pub fn matches(&self, name: &str) -> (r: bool)
        ensures
            r == glob_set_matches(self.sources(), name@),
    {
        set_is_match(&self.set, name)
    }
}

/// `entry` without its leading dots.
fn strip_dots(entry: &str) -> (r: String)
    ensures
        r@ == strip_leading(entry@, '.'),
{
    let chars = chars_of(entry);
    let mut k: usize = 0;
    assert(chars@.skip(0) == chars@);
    while k < chars.len() && chars[k] == '.'
        invariant
            k <= chars.len(),
            strip_leading(chars@, '.') == strip_leading(chars@.skip(k as int), '.'),
        decreases chars.len() - k,
    {
        assert(chars@.skip(k as int)[0] == chars@[k as int]);
        assert(chars@.skip(k as int).drop_first() == chars@.skip(k + 1));
        k += 1;
    }
    proof {
        let rest = chars@.skip(k as int);
        if rest.len() > 0 {
            assert(rest[0] == chars@[k as int]);
        }
        assert(rest == entry@.subrange(k as int, chars.len() as int));
    }
    slice_of(entry, k, chars.len())
}

/// The glob for one ignored extension.
pub fn type_glob_of(entry: &str) -> (r: String)
    ensures
        r@ == type_glob(entry@),
{
    String::from_str("*.").concat(strip_dots(entry).as_str())
}

/// Adds the globs of `entries` to `builder`, each entry as a glob of its own or
/// as an extension glob. Stops at the first entry that gives no valid glob and
/// returns its position with the crate's reason.
fn add_patterns(builder: &mut GlobSetBuilder, entries: &Vec<String>, as_types: bool) -> (r: Result<
    (),
    (usize, String),
>)
    ensures
        ({
            let sources = if as_types {
                type_globs(texts(entries@))
            } else {
                texts(entries@)
            };
            match r {
                Ok(_) => {
                    &&& all_valid(sources, sources.len() as int)
                    &&& builder_sources(*final(builder)) == builder_sources(*old(builder)) + sources
                },
                Err((at, _)) => {
                    &&& at < entries.len()
                    &&& all_valid(sources, at as int)
                    &&& !glob_is_valid(sources[at as int])
                },
            }
        }),
{
    let ghost sources = if as_types {
        type_globs(texts(entries@))
    } else {
        texts(entries@)
    };
    let mut i: usize = 0;
    while i < entries.len()
        invariant
            i <= entries.len(),
            sources.len() == entries.len(),
            sources == if as_types {
                type_globs(texts(entries@))
            } else {
                texts(entries@)
            },
            all_valid(sources, i as int),
            builder_sources(*builder) == builder_sources(*old(builder)) + sources.take(i as int),
        decreases entries.len() - i,
    {
        let parsed = if as_types {
            let glob_text = type_glob_of(entries[i].as_str());
            parse_glob(glob_text.as_str())
        } else {
            parse_glob(entries[i].as_str())
        };
        match parsed {
            Ok(glob) => {
                assert(glob_source(glob) == sources[i as int]);
                builder_add(builder, glob);
                assert(sources.take(i + 1) == sources.take(i as int).push(sources[i as int]));
            },
            Err(error) => {
                return Err((i, error_text(&error)));
            },
        }
        i += 1;
    }
    assert(sources.take(sources.len() as int) == sources);
    Ok(())
}

/// Compiles the matcher of a configuration.
///
/// Fails on the first pattern that is not a valid glob, naming the entry it
/// came from, and otherwise only if the set as a whole cannot be compiled.
pub fn create_globset(args: &Args, config: &Config) -> (r: Result<CompiledMatcher, ConfigError>)
    ensures
        ({
            let files = texts(args.ignore_files@);
            let types = effective_types(args, config);
            let globs = type_globs(types);
            match r {
                Ok(matcher) => {
                    &&& matcher.sources() == matcher_sources(args, config)
                    &&& all_valid(files, files.len() as int)
                    &&& all_valid(globs, globs.len() as int)
                    &&& glob_set_compiles(matcher_sources(args, config))
                },
                Err(ConfigError::IgnoreFilePattern { pattern, .. }) => {
                    exists|at: int|
                        {
                            &&& 0 <= at < files.len()
                            &&& all_valid(files, at)
                            &&& !glob_is_valid(#[trigger] files[at])
                            &&& pattern@ == files[at]
                        }
                },
                Err(ConfigError::IgnoreTypePattern { pattern, .. }) => {
                    &&& all_valid(files, files.len() as int)
                    &&& exists|at: int|
                        {
                            &&& 0 <= at < types.len()
                            &&& all_valid(globs, at)
                            &&& !glob_is_valid(#[trigger] globs[at])
                            &&& pattern@ == types[at]
                        }
                },
                Err(ConfigError::Build { .. }) => {
                    &&& all_valid(files, files.len() as int)
                    &&& all_valid(globs, globs.len() as int)
                    &&& !glob_set_compiles(matcher_sources(args, config))
                },
            }
        }),
{
    let mut builder = new_builder();
    match add_patterns(&mut builder, &args.ignore_files, false) {
        Ok(_) => {},
        Err((at, reason)) => {
            let pattern = args.ignore_files[at].clone();
            proof {
                let files = texts(args.ignore_files@);
                assert(pattern@ == files[at as int]);
                assert(!glob_is_valid(files[at as int]));
            }
            return Err(ConfigError::IgnoreFilePattern { pattern, reason });
        },
    }
    let types = if args.ignore_types.len() == 0 {
        &config.default_ignore_types
    } else {
        &args.ignore_types
    };
    match add_patterns(&mut builder, types, true) {
        Ok(_) => {},
        Err((at, reason)) => {
            let pattern = types[at].clone();
            proof {
                let entries = effective_types(args, config);
                assert(texts(types@) == entries);
                assert(pattern@ == entries[at as int]);
                assert(!glob_is_valid(type_globs(entries)[at as int]));
            }
            return Err(ConfigError::IgnoreTypePattern { pattern, reason });
        },
    }
    assert(builder_sources(builder) == matcher_sources(args, config));
    match builder_build(&builder) {
        Ok(set) => Ok(CompiledMatcher { set }),
        Err(error) => Err(ConfigError::Build { reason: error_text(&error) }),
    }
}

} // verus!
