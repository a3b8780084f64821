//! Directory traversal and inclusion filtering for repository documentation.
//!
//! The library decides, for every node below a root, whether it is listed in
//! the generated document: by ignored names and extensions, glob patterns,
//! an include directory, excluded directories, the hidden-file policy, a depth
//! limit and the handling of symbolic links. It never lists the generated
//! document itself. Reading directories and files is left to the caller, who
//! hands over what was read as plain values.

pub mod args;
pub mod classify;
pub mod config;
pub mod entry;
pub mod laws;
pub mod matcher;
pub mod text;
pub mod visited;
pub mod walk;
pub mod write;

pub use crate::args::{parse_args, parse_set, Args, OutputFormat, RawArgs};
pub use crate::classify::{classify, is_ignored, should_include, verdict, Verdict};
pub use crate::config::{
    default_ignore_types, default_max_depth, default_settings_extensions, Config,
};
pub use crate::entry::{DirItem, Entry, EntryKind};
pub use crate::matcher::{create_globset, CompiledMatcher, ConfigError};
pub use crate::visited::VisitedSet;
pub use crate::walk::{
    walk_entries, DirListing, FileTree, PathError, Step, Walker, DEPTH_CEILING,
};
pub use crate::write::{
    write_file_content, write_file_contents, write_footer, write_header, write_repository,
    write_tree,
};
