//! Depth-first traversal with pruning.
//!
//! The traversal lists the root, then visits what lies below it depth first.
//! The children of a directory are ordered by path, classified one by one,
//! and only the included ones are listed; a directory that is left out is
//! never entered. A directory is entered when it lies above the depth limit,
//! when it is no symbolic link or links are followed, and when the physical
//! directory it resolves to was not entered before. The root is listed
//! without being classified.
//!
//! Reading a directory is left to the caller: `Walker` says which directory
//! to read next and takes its items back.

use crate::args::Args;
use crate::classify::{ignored, is_ignored};
use crate::config::Config;
use crate::entry::{entry_views, item_views, DirItem, DirItemView, Entry, EntryKind, EntryView};
use crate::matcher::CompiledMatcher;
use crate::text::{chars_of, lex_lt, text_eq, text_lt};
use crate::visited::VisitedSet;
use vstd::prelude::*;
use vstd::string::*;

verus! {

/// No traversal enters directories below this depth, whatever the configured
/// maximum.
pub const DEPTH_CEILING: usize = 20;

/// What a traversal decides by: the options, the tables, the patterns of the
/// compiled matcher and the canonical path of the generated document.
pub struct Rules {
    pub args: Args,
    pub config: Config,
    pub sources: Seq<Seq<char>>,
    pub output: Seq<char>,
}

/// The depth below which directories are entered.
pub open spec fn depth_limit(args: &Args) -> nat {
    if args.max_depth < DEPTH_CEILING {
        args.max_depth as nat
    } else {
        DEPTH_CEILING as nat
    }
}

/// The path of `name` inside `dir`.
pub open spec fn join_path(dir: Seq<char>, name: Seq<char>) -> Seq<char> {
    if dir.len() == 0 {
        name
    } else if dir.last() == '/' {
        dir + name
    } else {
        dir + seq!['/'] + name
    }
}

/// The entry for one item of the directory `parent`.
pub open spec fn child_entry(parent: EntryView, item: DirItemView) -> EntryView {
    EntryView {
        path: join_path(parent.path, item.name),
        rel_path: join_path(parent.rel_path, item.name),
        name: item.name,
        canonical: item.canonical,
        depth: parent.depth + 1,
        kind: item.kind,
        is_symlink: item.is_symlink,
    }
}

/// The entries for the items of the directory `parent`, in the items' order.
pub open spec fn children_of(parent: EntryView, items: Seq<DirItemView>) -> Seq<EntryView> {
    Seq::new(items.len(), |i: int| child_entry(parent, items[i]))
}

/// `sorted` with `entry` placed behind every entry whose path is not greater.
pub open spec fn insert_sorted(sorted: Seq<EntryView>, entry: EntryView) -> Seq<EntryView>
    decreases sorted.len(),
{
    if sorted.len() > 0 && lex_lt(entry.path, sorted.last().path) {
        insert_sorted(sorted.drop_last(), entry).push(sorted.last())
    } else {
        sorted.push(entry)
    }
}

/// `list` in lexicographic order of paths; entries of equal path keep their
/// order.
pub open spec fn sort_entries(list: Seq<EntryView>) -> Seq<EntryView>
    decreases list.len(),
{
    if list.len() == 0 {
        list
    } else {
        insert_sorted(sort_entries(list.drop_last()), list.last())
    }
}

/// Whether the rules include an entry.
pub open spec fn included(entry: EntryView, rules: Rules) -> bool {
    !ignored(entry, rules.sources, &rules.args, &rules.config, rules.output)
}

/// The entries of `list` that the rules include, in order.
pub open spec fn keep_included(list: Seq<EntryView>, rules: Rules) -> Seq<EntryView>
    decreases list.len(),
{
    if list.len() == 0 {
        list
    } else if included(list[0], rules) {
        seq![list[0]] + keep_included(list.drop_first(), rules)
    } else {
        keep_included(list.drop_first(), rules)
    }
}

/// The children of `parent` that a traversal lists, in the order it lists
/// them: sorted by path, the ignored ones left out.
pub open spec fn listed_children(parent: EntryView, items: Seq<DirItemView>, rules: Rules) -> Seq<
    EntryView,
> {
    keep_included(sort_entries(children_of(parent, items)), rules)
}

/// Whether a traversal that has entered the directories of `visited` enters
/// `entry`, its depth aside.
pub open spec fn may_enter(entry: EntryView, visited: Set<Seq<char>>, args: &Args) -> bool {
    &&& entry.kind == EntryKind::Directory
    &&& (entry.is_symlink ==> args.follow_symlinks || entry.depth == 0)
    &&& entry.canonical is Some
    &&& !visited.contains(entry.canonical->0)
}

/// The path of `name` inside `dir`.
pub fn join_path_of(dir: &str, name: &str) -> (r: String)
    ensures
        r@ == join_path(dir@, name@),
{
    let d = chars_of(dir);
    if d.len() == 0 {
        String::from_str(name)
    } else if d[d.len() - 1] == '/' {
        String::from_str(dir).concat(name)
    } else {
        proof {
            reveal_strlit("/");
            assert("/"@ == seq!['/']);
        }
        String::from_str(dir).concat("/").concat(name)
    }
}

/// The entry for one item of the directory `parent`.
pub fn child_of(parent: &Entry, item: &DirItem) -> (r: Entry)
    requires
        parent.depth < usize::MAX,
    ensures
        r@ == child_entry(parent@, item@),
{
    Entry {
        path: join_path_of(parent.path.as_str(), item.name.as_str()),
        rel_path: join_path_of(parent.rel_path.as_str(), item.name.as_str()),
        name: item.name.clone(),
        canonical: item.canonical.clone(),
        depth: parent.depth + 1,
        kind: item.kind,
        is_symlink: item.is_symlink,
    }
}

proof fn lemma_insert_at(sorted: Seq<EntryView>, entry: EntryView, at: int)
    requires
        0 <= at <= sorted.len(),
        forall|j: int| at <= j < sorted.len() ==> lex_lt(entry.path, sorted[j].path),
        at > 0 ==> !lex_lt(entry.path, sorted[at - 1].path),
    ensures
        insert_sorted(sorted, entry) == sorted.insert(at, entry),
    decreases sorted.len() - at,
{
    if at < sorted.len() {
        let shorter = sorted.drop_last();
        lemma_insert_at(shorter, entry, at);
        assert(shorter.insert(at, entry).push(sorted.last()) == sorted.insert(at, entry));
    } else {
        assert(sorted.push(entry) == sorted.insert(at, entry));
    }
}

/// The entries for the items of `parent`, sorted by path.
pub fn sorted_children(parent: &Entry, items: &Vec<DirItem>) -> (r: Vec<Entry>)
    requires
        parent.depth < usize::MAX,
    ensures
        entry_views(r@) == sort_entries(children_of(parent@, item_views(items@))),
{
    let ghost all = children_of(parent@, item_views(items@));
    let mut out: Vec<Entry> = Vec::new();
    let mut i: usize = 0;
    proof {
        assert(entry_views(out@) == sort_entries(all.take(0)));
    }
    while i < items.len()
        invariant
            i <= items.len(),
            parent.depth < usize::MAX,
            all == children_of(parent@, item_views(items@)),
            entry_views(out@) == sort_entries(all.take(i as int)),
        decreases items.len() - i,
    {
        let child = child_of(parent, &items[i]);
        let ghost sorted = entry_views(out@);
        let mut at: usize = out.len();
        while at > 0 && text_lt(child.path.as_str(), out[at - 1].path.as_str())
            invariant
                at <= out.len(),
                sorted == entry_views(out@),
                forall|j: int| at <= j < sorted.len() ==> lex_lt(child@.path, sorted[j].path),
            decreases at,
        {
            at -= 1;
        }
        proof {
            lemma_insert_at(sorted, child@, at as int);
            assert(all.take(i + 1).drop_last() == all.take(i as int));
            assert(all.take(i + 1).last() == child@);
        }
        out.insert(at, child);
        proof {
            assert(entry_views(out@) == sorted.insert(at as int, child@));
        }
        i += 1;
    }
    proof {
        assert(all.take(items.len() as int) == all);
    }
    out
}

/// What a traversal has listed and which directories it has entered.
pub struct Walked {
    /// The entries listed, in the order of listing.
    pub entries: Seq<EntryView>,
    /// The directories entered, in the order of entering.
    pub entered: Seq<EntryView>,
    /// The canonical paths of all directories entered so far.
    pub visited: Set<Seq<char>>,
}

/// The items that a read of a directory gave; none where it could not be read.
pub open spec fn items_or_none(items: Option<Seq<DirItemView>>) -> Seq<DirItemView> {
    match items {
        Some(items) => items,
        None => Seq::empty(),
    }
}

/// The traversal of `entry` and of what lies below it, `levels` being the
/// number of levels that may still be entered.
pub open spec fn walk_entry(
    fs: spec_fn(Seq<char>) -> Option<Seq<DirItemView>>,
    rules: Rules,
    entry: EntryView,
    visited: Set<Seq<char>>,
    levels: nat,
) -> Walked
    decreases levels, 0nat,
{
    if levels > 0 && may_enter(entry, visited, &rules.args) {
        let children = listed_children(entry, items_or_none(fs(entry.path)), rules);
        let below = walk_list(
            fs,
            rules,
            children,
            visited.insert(entry.canonical->0),
            (levels - 1) as nat,
        );
        Walked {
            entries: seq![entry] + below.entries,
            entered: seq![entry] + below.entered,
            visited: below.visited,
        }
    } else {
        Walked { entries: seq![entry], entered: Seq::empty(), visited }
    }
}

/// The traversal of the entries of `list`, one after the other.
pub open spec fn walk_list(
    fs: spec_fn(Seq<char>) -> Option<Seq<DirItemView>>,
    rules: Rules,
    list: Seq<EntryView>,
    visited: Set<Seq<char>>,
    levels: nat,
) -> Walked
    decreases levels, 1 + list.len(),
{
    if list.len() == 0 {
        Walked { entries: Seq::empty(), entered: Seq::empty(), visited }
    } else {
        let first = walk_entry(fs, rules, list[0], visited, levels);
        let rest = walk_list(fs, rules, list.drop_first(), first.visited, levels);
        Walked {
            entries: first.entries + rest.entries,
            entered: first.entered + rest.entered,
            visited: rest.visited,
        }
    }
}

/// The entry that stands for the root of a traversal.
pub open spec fn root_entry(path: Seq<char>, root: DirItemView) -> EntryView {
    EntryView {
        path,
        rel_path: Seq::empty(),
        name: root.name,
        canonical: root.canonical,
        depth: 0,
        kind: root.kind,
        is_symlink: root.is_symlink,
    }
}

/// Whether a traversal can start from `root`: it is a directory, and it does
/// not resolve to the generated document, which is a file.
pub open spec fn is_root(root: DirItemView, output: Seq<char>) -> bool {
    root.kind == EntryKind::Directory && root.canonical != Some(output)
}

/// The whole traversal from a root.
pub open spec fn walk(
    fs: spec_fn(Seq<char>) -> Option<Seq<DirItemView>>,
    rules: Rules,
    root: EntryView,
) -> Walked {
    walk_entry(fs, rules, root, Set::empty(), depth_limit(&rules.args))
}

/// The number of levels that may be entered from `entry` on.
pub open spec fn levels_of(entry: EntryView, rules: Rules) -> nat {
    if entry.depth < depth_limit(&rules.args) {
        (depth_limit(&rules.args) - entry.depth) as nat
    } else {
        0
    }
}

/// The traversal of the entries of a work stack, the last one first.
pub open spec fn walk_stack(
    fs: spec_fn(Seq<char>) -> Option<Seq<DirItemView>>,
    rules: Rules,
    stack: Seq<EntryView>,
    visited: Set<Seq<char>>,
) -> Walked
    decreases stack.len(),
{
    if stack.len() == 0 {
        Walked { entries: Seq::empty(), entered: Seq::empty(), visited }
    } else {
        let first = walk_entry(fs, rules, stack.last(), visited, levels_of(stack.last(), rules));
        let rest = walk_stack(fs, rules, stack.drop_last(), first.visited);
        Walked {
            entries: first.entries + rest.entries,
            entered: first.entered + rest.entered,
            visited: rest.visited,
        }
    }
}

/// Sorting keeps what holds of every entry.
pub(crate) proof fn lemma_sort_keeps(list: Seq<EntryView>, p: spec_fn(EntryView) -> bool)
    requires
        forall|i: int| 0 <= i < list.len() ==> p(#[trigger] list[i]),
    ensures
        sort_entries(list).len() == list.len(),
        forall|i: int| 0 <= i < list.len() ==> p(#[trigger] sort_entries(list)[i]),
    decreases list.len(),
{
    if list.len() > 0 {
        let shorter = list.drop_last();
        assert(forall|i: int| 0 <= i < shorter.len() ==> shorter[i] == list[i]);
        lemma_sort_keeps(shorter, p);
        lemma_insert_keeps(sort_entries(shorter), list.last(), p);
    }
}

pub(crate) proof fn lemma_insert_keeps(sorted: Seq<EntryView>, entry: EntryView, p: spec_fn(EntryView) -> bool)
    requires
        forall|i: int| 0 <= i < sorted.len() ==> p(#[trigger] sorted[i]),
        p(entry),
    ensures
        insert_sorted(sorted, entry).len() == sorted.len() + 1,
        forall|i: int| 0 <= i <= sorted.len() ==> p(#[trigger] insert_sorted(sorted, entry)[i]),
    decreases sorted.len(),
{
    if sorted.len() > 0 && lex_lt(entry.path, sorted.last().path) {
        let shorter = sorted.drop_last();
        assert(forall|i: int| 0 <= i < shorter.len() ==> shorter[i] == sorted[i]);
        lemma_insert_keeps(shorter, entry, p);
    }
}

/// Of the entries kept, each is included and has what held of every entry.
pub(crate) proof fn lemma_keep_keeps(list: Seq<EntryView>, rules: Rules, p: spec_fn(EntryView) -> bool)
    requires
        forall|i: int| 0 <= i < list.len() ==> p(#[trigger] list[i]),
    ensures
        keep_included(list, rules).len() <= list.len(),
        forall|i: int|
            0 <= i < keep_included(list, rules).len() ==> p(#[trigger] keep_included(list, rules)[i])
                && included(keep_included(list, rules)[i], rules),
    decreases list.len(),
{
    if list.len() > 0 {
        let rest = list.drop_first();
        assert(forall|i: int| 0 <= i < rest.len() ==> rest[i] == list[i + 1]);
        lemma_keep_keeps(rest, rules, p);
    }
}

/// Every listed child is included, lies one level below its parent, and is
/// the entry of one of the parent's items.
pub(crate) proof fn lemma_listed_children(parent: EntryView, items: Seq<DirItemView>, rules: Rules)
    ensures
        forall|i: int|
            0 <= i < listed_children(parent, items, rules).len() ==> {
                let child = #[trigger] listed_children(parent, items, rules)[i];
                &&& included(child, rules)
                &&& exists|k: int| 0 <= k < items.len() && child == child_entry(parent, items[k])
            },
{
    let p = |e: EntryView| exists|k: int| 0 <= k < items.len() && e == child_entry(parent, items[k]);
    let all = children_of(parent, items);
    assert forall|i: int| 0 <= i < all.len() implies p(#[trigger] all[i]) by {
        assert(all[i] == child_entry(parent, items[i]));
    }
    lemma_sort_keeps(all, p);
    lemma_keep_keeps(sort_entries(all), rules, p);
}

proof fn lemma_walk_stack_children(
    fs: spec_fn(Seq<char>) -> Option<Seq<DirItemView>>,
    rules: Rules,
    stack: Seq<EntryView>,
    children: Seq<EntryView>,
    visited: Set<Seq<char>>,
    levels: nat,
)
    requires
        forall|i: int| 0 <= i < children.len() ==> levels_of(#[trigger] children[i], rules) == levels,
    ensures
        ({
            let below = walk_list(fs, rules, children, visited, levels);
            let rest = walk_stack(fs, rules, stack, below.visited);
            let all = walk_stack(fs, rules, stack + children.reverse(), visited);
            &&& all.entries == below.entries + rest.entries
            &&& all.entered == below.entered + rest.entered
            &&& all.visited == rest.visited
        }),
    decreases children.len(),
{
    if children.len() == 0 {
        assert(stack + children.reverse() == stack);
        let rest = walk_stack(fs, rules, stack, visited);
        assert(Seq::<EntryView>::empty() + rest.entries == rest.entries);
        assert(Seq::<EntryView>::empty() + rest.entered == rest.entered);
    } else {
        let head = children[0];
        let tail = children.drop_first();
        let whole = stack + children.reverse();
        assert(whole == (stack + tail.reverse()).push(head));
        assert(whole.last() == head);
        assert(whole.drop_last() == stack + tail.reverse());
        let first = walk_entry(fs, rules, head, visited, levels);
        assert(forall|i: int| 0 <= i < tail.len() ==> tail[i] == children[i + 1]);
        lemma_walk_stack_children(fs, rules, stack, tail, first.visited, levels);
        let below_tail = walk_list(fs, rules, tail, first.visited, levels);
        let rest = walk_stack(fs, rules, stack, below_tail.visited);
        assert(first.entries + (below_tail.entries + rest.entries) == (first.entries
            + below_tail.entries) + rest.entries);
        assert(first.entered + (below_tail.entered + rest.entered) == (first.entered
            + below_tail.entered) + rest.entered);
    }
}

/// One step of a traversal leaves the traversal as it is: what was to be
/// listed before the step is the entry that the step lists, and then what is
/// to be listed after it, where the children of an entered directory are
/// queued as `fs` lists them.
pub proof fn law_step_keeps_the_traversal(
    fs: spec_fn(Seq<char>) -> Option<Seq<DirItemView>>,
    rules: Rules,
    pending: Seq<EntryView>,
    visited: Set<Seq<char>>,
)
    requires
        pending.len() > 0,
    ensures
        ({
            let entry = pending.last();
            let rest = pending.drop_last();
            let after = if enters(entry, visited, rules) {
                walk_stack(
                    fs,
                    rules,
                    rest + listed_children(entry, items_or_none(fs(entry.path)), rules).reverse(),
                    visited.insert(entry.canonical->0),
                )
            } else {
                walk_stack(fs, rules, rest, visited)
            };
            walk_stack(fs, rules, pending, visited).entries == seq![entry] + after.entries
        }),
{
    let entry = pending.last();
    let rest = pending.drop_last();
    let levels = levels_of(entry, rules);
    let first = walk_entry(fs, rules, entry, visited, levels);
    let tail = walk_stack(fs, rules, rest, first.visited);
    if enters(entry, visited, rules) {
        let inner = visited.insert(entry.canonical->0);
        let children = listed_children(entry, items_or_none(fs(entry.path)), rules);
        lemma_listed_children(entry, items_or_none(fs(entry.path)), rules);
        assert forall|i: int| 0 <= i < children.len() implies levels_of(
            #[trigger] children[i],
            rules,
        ) == (levels - 1) as nat by {
            assert(children[i].depth == entry.depth + 1);
        }
        lemma_walk_stack_children(fs, rules, rest, children, inner, (levels - 1) as nat);
        let below = walk_list(fs, rules, children, inner, (levels - 1) as nat);
        assert(first.entries == seq![entry] + below.entries);
        assert((seq![entry] + below.entries) + tail.entries == seq![entry] + (below.entries
            + tail.entries));
    } else {
        assert(first.entries == seq![entry]);
    }
}

/// A root that a traversal cannot start from.
#[derive(Debug)]
pub enum PathError {
    /// The root does not exist or is not a directory.
    NotADirectory { path: String },
}

impl PathError {
    /// The message that reports this error.
    pub fn message(&self) -> (r: String)
        ensures
            r@ == self.message_text(),
    {
        match self {
            PathError::NotADirectory { path } => {
                String::from_str(
                    "The specified directory does not exist or is not a directory: ",
                ).concat(path.as_str())
            },
        }
    }

    /// The text of `message`.
    pub open spec fn message_text(&self) -> Seq<char> {
        match self {
            PathError::NotADirectory { path } => {
                "The specified directory does not exist or is not a directory: "@ + path@
            },
        }
    }
}

/// A directory that the traversal has entered and whose items it awaits.
struct Entered {
    entry: Entry,
}

impl Entered {
    #[verifier::type_invariant]
    spec fn shallow(&self) -> bool {
        self.entry.depth < DEPTH_CEILING
    }
}

/// One step of a traversal.
#[derive(Debug)]
pub enum Step {
    /// The next entry in order. Where `enter` is set, the entry is a directory
    /// that the traversal enters: its items are to be read and fed back.
    Listed { entry: Entry, enter: bool },
    /// Nothing is left to list.
    Done,
}

/// A traversal in progress: an explicit work stack, the set of directories
/// entered, and the rules it decides by.
pub struct Walker<'a> {
    args: &'a Args,
    config: &'a Config,
    matcher: &'a CompiledMatcher,
    output_file_path: &'a str,
    stack: Vec<Entry>,
    visited: VisitedSet,
    awaiting: Option<Entered>,
}

/// Whether a traversal that has entered the directories of `visited` enters
/// `entry`.
pub open spec fn enters(entry: EntryView, visited: Set<Seq<char>>, rules: Rules) -> bool {
    entry.depth < depth_limit(&rules.args) && may_enter(entry, visited, &rules.args)
}

impl<'a> Walker<'a> {
    /// The rules this traversal decides by.
    pub closed spec fn rules(&self) -> Rules {
        Rules {
            args: *self.args,
            config: *self.config,
            sources: self.matcher.sources(),
            output: self.output_file_path@,
        }
    }

    /// The entries waiting to be listed; the next one is the last.
    pub closed spec fn pending(&self) -> Seq<EntryView> {
        entry_views(self.stack@)
    }

    /// The canonical paths of the directories entered so far.
    pub closed spec fn visited(&self) -> Set<Seq<char>> {
        self.visited@
    }

    /// The directory whose items the traversal awaits, if any.
    pub closed spec fn awaiting(&self) -> Option<EntryView> {
        match self.awaiting {
            Some(entered) => Some(entered.entry@),
            None => None,
        }
    }

    /// What is still to be listed, if directories read as `fs` says.
    pub open spec fn remaining(&self, fs: spec_fn(Seq<char>) -> Option<Seq<DirItemView>>) -> Walked {
        walk_stack(fs, self.rules(), self.pending(), self.visited())
    }

    /// A traversal that is about to list `root`, reached by `path`.
    ///
    /// Fails if the root is not a directory, or resolves to the generated
    /// document.
    pub fn new(
        path: &str,
        root: &DirItem,
        args: &'a Args,
        config: &'a Config,
        matcher: &'a CompiledMatcher,
        output_file_path: &'a str,
    ) -> (r: Result<Walker<'a>, PathError>)
        ensures
            match r {
                Ok(walker) => {
                    &&& is_root(root@, output_file_path@)
                    &&& walker.rules() == (Rules {
                        args: *args,
                        config: *config,
                        sources: matcher.sources(),
                        output: output_file_path@,
                    })
                    &&& walker.pending() == seq![root_entry(path@, root@)]
                    &&& walker.visited() == Set::<Seq<char>>::empty()
                    &&& walker.awaiting() is None
                },
                Err(PathError::NotADirectory { path: reported }) => {
                    &&& !is_root(root@, output_file_path@)
                    &&& reported@ == path@
                },
            },
    {
        let is_output = match &root.canonical {
            Some(canonical) => text_eq(canonical.as_str(), output_file_path),
            None => false,
        };
        if root.kind != EntryKind::Directory || is_output {
            return Err(PathError::NotADirectory { path: String::from_str(path) });
        }
        let entry = Entry {
            path: String::from_str(path),
            rel_path: String::new(),
            name: root.name.clone(),
            canonical: root.canonical.clone(),
            depth: 0,
            kind: root.kind,
            is_symlink: root.is_symlink,
        };
        let mut stack: Vec<Entry> = Vec::new();
        stack.push(entry);
        assert(entry_views(stack@) == seq![root_entry(path@, root@)]);
        Ok(
            Walker {
                args,
                config,
                matcher,
                output_file_path,
                stack,
                visited: VisitedSet::new(),
                awaiting: None,
            },
        )
    }

    /// Lists the next entry and decides whether the traversal enters it.
    ///
    /// A directory that was entered and whose items were never fed counts as
    /// unreadable: it stays listed and nothing below it is.
    pub fn next(&mut self) -> (step: Step)
        ensures
            final(self).rules() == old(self).rules(),
            match step {
                Step::Done => {
                    &&& old(self).pending().len() == 0
                    &&& final(self).pending() == old(self).pending()
                    &&& final(self).visited() == old(self).visited()
                    &&& final(self).awaiting() is None
                },
                Step::Listed { entry, enter } => {
                    &&& old(self).pending().len() > 0
                    &&& entry@ == old(self).pending().last()
                    &&& enter == enters(entry@, old(self).visited(), old(self).rules())
                    &&& final(self).pending() == old(self).pending().drop_last()
                    &&& final(self).visited() == if enter {
                        old(self).visited().insert(entry@.canonical->0)
                    } else {
                        old(self).visited()
                    }
                    &&& final(self).awaiting() == if enter {
                        Some(entry@)
                    } else {
                        None
                    }
                },
            },
    {
        self.awaiting = None;
        let ghost before = entry_views(self.stack@);
        match self.stack.pop() {
            None => Step::Done,
            Some(entry) => {
                proof {
                    assert(entry@ == before.last());
                    assert(entry_views(self.stack@) == before.drop_last());
                }
                let limit = if self.args.max_depth < DEPTH_CEILING {
                    self.args.max_depth
                } else {
                    DEPTH_CEILING
                };
                let mut enter = false;
                if entry.kind == EntryKind::Directory && entry.depth < limit && (!entry.is_symlink
                    || self.args.follow_symlinks || entry.depth == 0) {
                    if let Some(canonical) = &entry.canonical {
                        enter = self.visited.insert(canonical.clone());
                    }
                }
                if enter {
                    self.awaiting = Some(Entered { entry: entry.duplicate() });
                }
                Step::Listed { entry, enter }
            },
        }
    }

    /// Takes the items of the directory that the last step entered, `None`
    /// where it could not be read, and queues those that the rules include,
    /// sorted by path. Does nothing when no directory is awaited.
    pub fn feed(&mut self, items: Option<&Vec<DirItem>>)
        ensures
            final(self).rules() == old(self).rules(),
            final(self).visited() == old(self).visited(),
            final(self).awaiting() is None,
            final(self).pending() == match old(self).awaiting() {
                Some(parent) => old(self).pending() + listed_children(
                    parent,
                    items_or_none(
                        match items {
                            Some(items) => Some(item_views(items@)),
                            None => None,
                        },
                    ),
                    old(self).rules(),
                ).reverse(),
                None => old(self).pending(),
            },
    {
        let parent = match self.awaiting.take() {
            Some(entered) => entered,
            None => {
                return ;
            },
        };
        proof {
            use_type_invariant(&parent);
        }
        let ghost rules = self.rules();
        let ghost before = entry_views(self.stack@);
        let mut sorted = match items {
            Some(items) => sorted_children(&parent.entry, items),
            None => {
                let none: Vec<Entry> = Vec::new();
                proof {
                    let no_items = Seq::<DirItemView>::empty();
                    assert(children_of(parent.entry@, no_items) == Seq::<EntryView>::empty());
                    assert(entry_views(none@) == sort_entries(children_of(parent.entry@, no_items)));
                }
                none
            },
        };
        let ghost all = entry_views(sorted@);
        proof {
            assert(all.skip(all.len() as int) == Seq::<EntryView>::empty());
            assert(before + keep_included(all.skip(all.len() as int), rules).reverse() == before);
        }
        while sorted.len() > 0
            invariant
                sorted.len() <= all.len(),
                entry_views(sorted@) == all.take(sorted.len() as int),
                self.rules() == rules,
                self.visited() == old(self).visited(),
                self.awaiting() is None,
                entry_views(self.stack@) == before + keep_included(
                    all.skip(sorted.len() as int),
                    rules,
                ).reverse(),
            decreases sorted.len(),
        {
            let ghost n = sorted.len() as int;
            let ghost stacked = entry_views(self.stack@);
            let child = sorted.pop().unwrap();
            proof {
                assert(child@ == all.take(n).last());
                assert(entry_views(sorted@) == all.take(n - 1));
                let tail = all.skip(n - 1);
                assert(tail[0] == child@);
                assert(tail.drop_first() == all.skip(n));
                let kept = keep_included(all.skip(n), rules);
                assert((seq![child@] + kept).reverse() == kept.reverse().push(child@));
            }
            if !is_ignored(&child, self.matcher, self.args, self.config, self.output_file_path) {
                self.stack.push(child);
                proof {
                    assert(entry_views(self.stack@) == stacked.push(child@));
                    let kept = keep_included(all.skip(n), rules);
                    assert(before + kept.reverse().push(child@) == (before + kept.reverse()).push(
                        child@,
                    ));
                }
            }
        }
        proof {
            assert(all.skip(0) == all);
        }
    }
}

/// The items of one directory.
#[derive(Debug, Clone)]
pub struct DirListing {
    /// The path by which a traversal reaches the directory.
    pub path: String,
    pub items: Vec<DirItem>,
}

/// What the directories of a tree hold, as read beforehand. A directory that
/// the tree does not list counts as unreadable.
#[derive(Debug, Clone)]
pub struct FileTree {
    pub dirs: Vec<DirListing>,
}

/// The items that the first listing of `path` among `dirs` gives.
pub open spec fn lookup(dirs: Seq<DirListing>, path: Seq<char>) -> Option<Seq<DirItemView>>
    decreases dirs.len(),
{
    if dirs.len() == 0 {
        None
    } else if dirs[0].path@ == path {
        Some(item_views(dirs[0].items@))
    } else {
        lookup(dirs.drop_first(), path)
    }
}

impl FileTree {
    /// What each path lists in this tree.
    pub open spec fn listing(&self) -> spec_fn(Seq<char>) -> Option<Seq<DirItemView>> {
        |path: Seq<char>| lookup(self.dirs@, path)
    }

    /// The items of the directory reached by `path`.
    pub fn items_of(&self, path: &str) -> (r: Option<&Vec<DirItem>>)
        ensures
            match r {
                Some(items) => lookup(self.dirs@, path@) == Some(item_views(items@)),
                None => lookup(self.dirs@, path@) is None,
            },
    {
        let mut i: usize = 0;
        assert(self.dirs@.skip(0) == self.dirs@);
        while i < self.dirs.len()
            invariant
                i <= self.dirs.len(),
                lookup(self.dirs@, path@) == lookup(self.dirs@.skip(i as int), path@),
            decreases self.dirs.len() - i,
        {
            let ghost rest = self.dirs@.skip(i as int);
            assert(rest[0] == self.dirs@[i as int]);
            assert(rest.drop_first() == self.dirs@.skip(i + 1));
            if text_eq(self.dirs[i].path.as_str(), path) {
                return Some(&self.dirs[i].items);
            }
            i += 1;
        }
        None
    }
}

/// Traverses `tree` from the root reached by `path` and returns the entries
/// in the order of listing.
///
/// Fails if the root is not a directory, or resolves to the generated
/// document. Terminates on every tree, also where links lead back to a
/// directory above them.
pub fn walk_entries(
    path: &str,
    root: &DirItem,
    tree: &FileTree,
    args: &Args,
    config: &Config,
    matcher: &CompiledMatcher,
    output_file_path: &str,
) -> (r: Result<Vec<Entry>, PathError>)
    ensures
        match r {
            Ok(entries) => {
                &&& is_root(root@, output_file_path@)
                &&& entry_views(entries@) == walk(
                    tree.listing(),
                    Rules {
                        args: *args,
                        config: *config,
                        sources: matcher.sources(),
                        output: output_file_path@,
                    },
                    root_entry(path@, root@),
                ).entries
                &&& forall|i: int|
                    0 <= i < entries@.len() ==> (#[trigger] entries@[i])@.canonical != Some(
                        output_file_path@,
                    )
            },
            Err(PathError::NotADirectory { path: reported }) => {
                &&& !is_root(root@, output_file_path@)
                &&& reported@ == path@
            },
        },
{
    let mut walker = match Walker::new(path, root, args, config, matcher, output_file_path) {
        Ok(walker) => walker,
        Err(error) => {
            return Err(error);
        },
    };
    let ghost fs = tree.listing();
    let ghost rules = walker.rules();
    let ghost whole = walk(fs, rules, root_entry(path@, root@));
    let mut out: Vec<Entry> = Vec::new();
    proof {
        // The stack holds the root alone, so what remains is the whole traversal.
        let start = seq![root_entry(path@, root@)];
        let first = walk_entry(fs, rules, start.last(), Set::empty(), levels_of(start.last(), rules));
        assert(start.drop_last() == Seq::<EntryView>::empty());
        assert(walk_stack(fs, rules, start.drop_last(), first.visited).entries == Seq::<
            EntryView,
        >::empty());
        assert(walk_stack(fs, rules, start, Set::empty()).entries == first.entries
            + Seq::<EntryView>::empty());
        assert(first.entries + Seq::<EntryView>::empty() == first.entries);
        assert(Seq::<EntryView>::empty() + first.entries == first.entries);
    }
    loop
        invariant
            walker.rules() == rules,
            walker.awaiting() is None,
            fs == tree.listing(),
            entry_views(out@) + walker.remaining(fs).entries == whole.entries,
        ensures
            entry_views(out@) == whole.entries,
        decreases walker.remaining(fs).entries.len(),
    {
        let ghost stack = walker.pending();
        let ghost visited = walker.visited();
        let ghost listed = entry_views(out@);
        match walker.next() {
            Step::Done => {
                proof {
                    assert(listed + Seq::<EntryView>::empty() == listed);
                }
                break ;
            },
            Step::Listed { entry, enter } => {
                proof {
                    law_step_keeps_the_traversal(fs, rules, stack, visited);
                }
                if enter {
                    let items = tree.items_of(entry.path.as_str());
                    walker.feed(items);
                }
                proof {
                    let after = walker.remaining(fs).entries;
                    assert(listed.push(entry@) + after == listed + (seq![entry@] + after));
                }
                out.push(entry);
                proof {
                    assert(entry_views(out@) == listed.push(entry@));
                }
            },
        }
    }
    proof {
        crate::laws::law_output_file_never_listed(fs, rules, path@, root@);
        assert forall|i: int| 0 <= i < out@.len() implies (#[trigger] out@[i])@.canonical != Some(
            output_file_path@,
        ) by {
            assert(entry_views(out@)[i] == out@[i]@);
        }
    }
    Ok(out)
}

} // verus!
