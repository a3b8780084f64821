//! The nodes of a traversal.

use vstd::prelude::*;
use vstd::string::*;

verus! {

/// What kind of node a path leads to, symbolic links resolved.
#[derive(Debug, Clone, Copy, PartialEq, Eq, Structural)]
pub enum EntryKind {
    File,
    Directory,
    /// Neither a file nor a directory, or a link that leads nowhere.
    Other,
}

/// One node below a traversal's root, or the root itself.
#[derive(Debug, Clone)]
pub struct Entry {
    /// The path by which the traversal reached the node.
    pub path: String,
    /// The path relative to the root; empty for the root itself.
    pub rel_path: String,
    /// The last component of the path.
    pub name: String,
    /// The resolved, link-free absolute path, where it could be computed.
    pub canonical: Option<String>,
    /// The number of components below the root; 0 for the root.
    pub depth: usize,
    pub kind: EntryKind,
    /// Whether the node is itself a symbolic link.
    pub is_symlink: bool,
}

/// One child as a directory lists it.
#[derive(Debug, Clone)]
pub struct DirItem {
    pub name: String,
    pub canonical: Option<String>,
    pub kind: EntryKind,
    pub is_symlink: bool,
}

/// The mathematical value of an `Entry`.
pub struct EntryView {
    pub path: Seq<char>,
    pub rel_path: Seq<char>,
    pub name: Seq<char>,
    pub canonical: Option<Seq<char>>,
    pub depth: nat,
    pub kind: EntryKind,
    pub is_symlink: bool,
}

/// The mathematical value of a `DirItem`.
pub struct DirItemView {
    pub name: Seq<char>,
    pub canonical: Option<Seq<char>>,
    pub kind: EntryKind,
    pub is_symlink: bool,
}

/// The text of an optional string.
pub open spec fn opt_text(s: Option<String>) -> Option<Seq<char>> {
    match s {
        Some(t) => Some(t@),
        None => None,
    }
}

impl View for Entry {
    type V = EntryView;

    open spec fn view(&self) -> EntryView {
        EntryView {
            path: self.path@,
            rel_path: self.rel_path@,
            name: self.name@,
            canonical: opt_text(self.canonical),
            depth: self.depth as nat,
            kind: self.kind,
            is_symlink: self.is_symlink,
        }
    }
}

impl View for DirItem {
    type V = DirItemView;

    open spec fn view(&self) -> DirItemView {
        DirItemView {
            name: self.name@,
            canonical: opt_text(self.canonical),
            kind: self.kind,
            is_symlink: self.is_symlink,
        }
    }
}

/// The values of a list of entries.
pub open spec fn entry_views(list: Seq<Entry>) -> Seq<EntryView> {
    Seq::new(list.len(), |i: int| list[i]@)
}

/// The values of a list of directory items.
pub open spec fn item_views(list: Seq<DirItem>) -> Seq<DirItemView> {
    Seq::new(list.len(), |i: int| list[i]@)
}

impl Entry {
    /// A copy of this entry.
    pub fn duplicate(&self) -> (r: Entry)
        ensures
            r@ == self@,
    {
        Entry {
            path: self.path.clone(),
            rel_path: self.rel_path.clone(),
            name: self.name.clone(),
            canonical: self.canonical.clone(),
            depth: self.depth,
            kind: self.kind,
            is_symlink: self.is_symlink,
        }
    }
}

} // verus!
