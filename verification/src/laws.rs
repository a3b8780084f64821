//! What holds of every traversal.
//!
//! Each law speaks of `walk`, the traversal that `walk_entries` computes and
//! that a `Walker` performs step by step, from the root that the entry at
//! `path` with the properties `root` stands for. The root is listed first and
//! is not classified, so the laws on classification speak of the entries
//! behind it.

use crate::classify::{is_hidden_name, leads_to, reaches, within};
use crate::entry::{DirItemView, EntryKind, EntryView};
use crate::text::{
    lemma_lex_order, lemma_split_join, lemma_split_push, lemma_split_single, lex_lt, split, texts,
};
use crate::walk::{
    child_entry, children_of, depth_limit, included, insert_sorted, is_root, items_or_none,
    keep_included, lemma_insert_keeps, lemma_keep_keeps, lemma_listed_children, levels_of,
    listed_children, may_enter, root_entry,
    sort_entries, walk, walk_entry, walk_list, Rules, Walked, DEPTH_CEILING,
};
use crate::write::repository_text;
use vstd::prelude::*;

verus! {

/// `inv` passes from an entered directory to each child that is listed.
spec fn hereditary(
    inv: spec_fn(EntryView) -> bool,
    fs: spec_fn(Seq<char>) -> Option<Seq<DirItemView>>,
    rules: Rules,
) -> bool {
    forall|parent: EntryView, i: int|
        #![trigger listed_children(parent, items_or_none(fs(parent.path)), rules)[i]]
        inv(parent) && parent.kind == EntryKind::Directory && 0 <= i < listed_children(
            parent,
            items_or_none(fs(parent.path)),
            rules,
        ).len() ==> inv(listed_children(parent, items_or_none(fs(parent.path)), rules)[i])
}

/// What holds of an entry and passes on to listed children holds of every
/// entry listed from it on.
proof fn lemma_walk_entry_inv(
    fs: spec_fn(Seq<char>) -> Option<Seq<DirItemView>>,
    rules: Rules,
    entry: EntryView,
    visited: Set<Seq<char>>,
    levels: nat,
    inv: spec_fn(EntryView) -> bool,
)
    requires
        inv(entry),
        hereditary(inv, fs, rules),
    ensures
        forall|i: int|
            0 <= i < walk_entry(fs, rules, entry, visited, levels).entries.len() ==> inv(
                #[trigger] walk_entry(fs, rules, entry, visited, levels).entries[i],
            ),
    decreases levels, 0nat,
{
    if levels > 0 && may_enter(entry, visited, &rules.args) {
        let children = listed_children(entry, items_or_none(fs(entry.path)), rules);
        assert forall|i: int| 0 <= i < children.len() implies inv(#[trigger] children[i]) by {
            assert(children[i] == listed_children(entry, items_or_none(fs(entry.path)), rules)[i]);
        }
        lemma_walk_list_inv(
            fs,
            rules,
            children,
            visited.insert(entry.canonical->0),
            (levels - 1) as nat,
            inv,
        );
        let below = walk_list(
            fs,
            rules,
            children,
            visited.insert(entry.canonical->0),
            (levels - 1) as nat,
        );
        let all = walk_entry(fs, rules, entry, visited, levels).entries;
        assert(all == seq![entry] + below.entries);
        assert forall|i: int| 0 <= i < all.len() implies inv(#[trigger] all[i]) by {
            if i > 0 {
                assert(all[i] == below.entries[i - 1]);
            }
        }
    } else {
        let all = walk_entry(fs, rules, entry, visited, levels).entries;
        assert(all == seq![entry]);
    }
}

/// The same for a list of entries.
proof fn lemma_walk_list_inv(
    fs: spec_fn(Seq<char>) -> Option<Seq<DirItemView>>,
    rules: Rules,
    list: Seq<EntryView>,
    visited: Set<Seq<char>>,
    levels: nat,
    inv: spec_fn(EntryView) -> bool,
)
    requires
        forall|i: int| 0 <= i < list.len() ==> inv(#[trigger] list[i]),
        hereditary(inv, fs, rules),
    ensures
        forall|i: int|
            0 <= i < walk_list(fs, rules, list, visited, levels).entries.len() ==> inv(
                #[trigger] walk_list(fs, rules, list, visited, levels).entries[i],
            ),
    decreases levels, 1 + list.len(),
{
    if list.len() > 0 {
        let first = walk_entry(fs, rules, list[0], visited, levels);
        lemma_walk_entry_inv(fs, rules, list[0], visited, levels, inv);
        let rest = list.drop_first();
        assert(forall|i: int| 0 <= i < rest.len() ==> rest[i] == list[i + 1]);
        lemma_walk_list_inv(fs, rules, rest, first.visited, levels, inv);
        let after = walk_list(fs, rules, rest, first.visited, levels);
        let all = walk_list(fs, rules, list, visited, levels).entries;
        assert(all == first.entries + after.entries);
        assert forall|i: int| 0 <= i < all.len() implies inv(#[trigger] all[i]) by {
            if i < first.entries.len() {
                assert(all[i] == first.entries[i]);
            } else {
                assert(all[i] == after.entries[i - first.entries.len()]);
            }
        }
    }
}

/// What holds of the root's listed children and passes on to listed children
/// holds of every entry listed behind the root.
proof fn lemma_below_root(
    fs: spec_fn(Seq<char>) -> Option<Seq<DirItemView>>,
    rules: Rules,
    root: EntryView,
    inv: spec_fn(EntryView) -> bool,
)
    requires
        hereditary(inv, fs, rules),
        forall|i: int|
            0 <= i < listed_children(root, items_or_none(fs(root.path)), rules).len() ==> inv(
                #[trigger] listed_children(root, items_or_none(fs(root.path)), rules)[i],
            ),
    ensures
        walk(fs, rules, root).entries.len() >= 1,
        walk(fs, rules, root).entries[0] == root,
        forall|i: int|
            1 <= i < walk(fs, rules, root).entries.len() ==> inv(
                #[trigger] walk(fs, rules, root).entries[i],
            ),
{
    let levels = depth_limit(&rules.args);
    let visited = Set::<Seq<char>>::empty();
    if levels > 0 && may_enter(root, visited, &rules.args) {
        let children = listed_children(root, items_or_none(fs(root.path)), rules);
        let below = walk_list(
            fs,
            rules,
            children,
            visited.insert(root.canonical->0),
            (levels - 1) as nat,
        );
        lemma_walk_list_inv(
            fs,
            rules,
            children,
            visited.insert(root.canonical->0),
            (levels - 1) as nat,
            inv,
        );
        let all = walk(fs, rules, root).entries;
        assert(all == seq![root] + below.entries);
        assert forall|i: int| 1 <= i < all.len() implies inv(#[trigger] all[i]) by {
            assert(all[i] == below.entries[i - 1]);
        }
    }
}

/// The root is listed first, and every entry behind it lies below it.
pub proof fn law_root_first(
    fs: spec_fn(Seq<char>) -> Option<Seq<DirItemView>>,
    rules: Rules,
    path: Seq<char>,
    root: DirItemView,
)
    ensures
        walk(fs, rules, root_entry(path, root)).entries.len() >= 1,
        walk(fs, rules, root_entry(path, root)).entries[0] == root_entry(path, root),
        forall|i: int|
            1 <= i < walk(fs, rules, root_entry(path, root)).entries.len() ==> (
            #[trigger] walk(fs, rules, root_entry(path, root)).entries[i]).depth > 0,
{
    let root = root_entry(path, root);
    let inv = |e: EntryView| e.depth > root.depth;
    assert(hereditary(inv, fs, rules)) by {
        assert forall|parent: EntryView, i: int|
            inv(parent) && parent.kind == EntryKind::Directory && 0 <= i < listed_children(
                parent,
                items_or_none(fs(parent.path)),
                rules,
            ).len() implies inv(
            #[trigger] listed_children(parent, items_or_none(fs(parent.path)), rules)[i],
        ) by {
            lemma_listed_children(parent, items_or_none(fs(parent.path)), rules);
        }
    }
    lemma_listed_children(root, items_or_none(fs(root.path)), rules);
    lemma_below_root(fs, rules, root, inv);
}

/// Every entry listed behind the root is one that the rules include.
pub proof fn law_listed_entries_are_included(
    fs: spec_fn(Seq<char>) -> Option<Seq<DirItemView>>,
    rules: Rules,
    path: Seq<char>,
    root: DirItemView,
)
    ensures
        forall|i: int|
            1 <= i < walk(fs, rules, root_entry(path, root)).entries.len() ==> included(
                #[trigger] walk(fs, rules, root_entry(path, root)).entries[i],
                rules,
            ),
{
    let root = root_entry(path, root);
    let inv = |e: EntryView| included(e, rules);
    assert(hereditary(inv, fs, rules)) by {
        assert forall|parent: EntryView, i: int|
            inv(parent) && parent.kind == EntryKind::Directory && 0 <= i < listed_children(
                parent,
                items_or_none(fs(parent.path)),
                rules,
            ).len() implies inv(
            #[trigger] listed_children(parent, items_or_none(fs(parent.path)), rules)[i],
        ) by {
            lemma_listed_children(parent, items_or_none(fs(parent.path)), rules);
        }
    }
    lemma_listed_children(root, items_or_none(fs(root.path)), rules);
    lemma_below_root(fs, rules, root, inv);
}

/// The generated document is never listed: whatever the configuration, no
/// entry of a traversal resolves to its canonical path. A traversal starts
/// only from a root that can be one.
pub proof fn law_output_file_never_listed(
    fs: spec_fn(Seq<char>) -> Option<Seq<DirItemView>>,
    rules: Rules,
    path: Seq<char>,
    root: DirItemView,
)
    requires
        is_root(root, rules.output),
    ensures
        forall|i: int|
            0 <= i < walk(fs, rules, root_entry(path, root)).entries.len() ==> (
            #[trigger] walk(fs, rules, root_entry(path, root)).entries[i]).canonical != Some(
                rules.output,
            ),
{
    law_listed_entries_are_included(fs, rules, path, root);
    law_root_first(fs, rules, path, root);
}

/// With an include directory set, every entry behind the root lies inside it,
/// or is one of the directories that lead to it: an entry that is no such
/// directory lies inside.
pub proof fn law_entries_reach_include_dir(
    fs: spec_fn(Seq<char>) -> Option<Seq<DirItemView>>,
    rules: Rules,
    path: Seq<char>,
    root: DirItemView,
)
    requires
        rules.args.include_dir is Some,
    ensures
        forall|i: int|
            1 <= i < walk(fs, rules, root_entry(path, root)).entries.len() ==> {
                let entry = #[trigger] walk(fs, rules, root_entry(path, root)).entries[i];
                let dir = rules.args.include_dir->0@;
                &&& reaches(entry, dir)
                &&& !(entry.kind == EntryKind::Directory && leads_to(entry.path, dir)) ==> within(
                    entry.path,
                    dir,
                )
            },
{
    law_listed_entries_are_included(fs, rules, path, root);
}

/// Unless hidden entries are asked for, no entry behind the root has a name
/// that starts with a dot.
pub proof fn law_hidden_entries_left_out(
    fs: spec_fn(Seq<char>) -> Option<Seq<DirItemView>>,
    rules: Rules,
    path: Seq<char>,
    root: DirItemView,
)
    requires
        !rules.args.include_hidden,
    ensures
        forall|i: int|
            1 <= i < walk(fs, rules, root_entry(path, root)).entries.len() ==> !is_hidden_name(
                (#[trigger] walk(fs, rules, root_entry(path, root)).entries[i]).name,
            ),
{
    law_listed_entries_are_included(fs, rules, path, root);
}

/// No entry listed from `entry` on lies deeper than `entry` by more than the
/// levels that may be entered.
proof fn lemma_depth_entry(
    fs: spec_fn(Seq<char>) -> Option<Seq<DirItemView>>,
    rules: Rules,
    entry: EntryView,
    visited: Set<Seq<char>>,
    levels: nat,
    bound: nat,
)
    requires
        entry.depth + levels <= bound,
    ensures
        forall|i: int|
            0 <= i < walk_entry(fs, rules, entry, visited, levels).entries.len() ==> (
            #[trigger] walk_entry(fs, rules, entry, visited, levels).entries[i]).depth <= bound,
    decreases levels, 0nat,
{
    let all = walk_entry(fs, rules, entry, visited, levels).entries;
    if levels > 0 && may_enter(entry, visited, &rules.args) {
        let children = listed_children(entry, items_or_none(fs(entry.path)), rules);
        lemma_listed_children(entry, items_or_none(fs(entry.path)), rules);
        let inner = visited.insert(entry.canonical->0);
        lemma_depth_list(fs, rules, children, inner, (levels - 1) as nat, bound);
        let below = walk_list(fs, rules, children, inner, (levels - 1) as nat);
        assert(all == seq![entry] + below.entries);
        assert forall|i: int| 0 <= i < all.len() implies (#[trigger] all[i]).depth <= bound by {
            if i > 0 {
                assert(all[i] == below.entries[i - 1]);
            }
        }
    } else {
        assert(all == seq![entry]);
    }
}

proof fn lemma_depth_list(
    fs: spec_fn(Seq<char>) -> Option<Seq<DirItemView>>,
    rules: Rules,
    list: Seq<EntryView>,
    visited: Set<Seq<char>>,
    levels: nat,
    bound: nat,
)
    requires
        forall|i: int| 0 <= i < list.len() ==> (#[trigger] list[i]).depth + levels <= bound,
    ensures
        forall|i: int|
            0 <= i < walk_list(fs, rules, list, visited, levels).entries.len() ==> (
            #[trigger] walk_list(fs, rules, list, visited, levels).entries[i]).depth <= bound,
    decreases levels, 1 + list.len(),
{
    if list.len() > 0 {
        let first = walk_entry(fs, rules, list[0], visited, levels);
        lemma_depth_entry(fs, rules, list[0], visited, levels, bound);
        let rest = list.drop_first();
        assert(forall|i: int| 0 <= i < rest.len() ==> rest[i] == list[i + 1]);
        lemma_depth_list(fs, rules, rest, first.visited, levels, bound);
        let after = walk_list(fs, rules, rest, first.visited, levels);
        let all = walk_list(fs, rules, list, visited, levels).entries;
        assert(all == first.entries + after.entries);
        assert forall|i: int| 0 <= i < all.len() implies (#[trigger] all[i]).depth <= bound by {
            if i < first.entries.len() {
                assert(all[i] == first.entries[i]);
            } else {
                assert(all[i] == after.entries[i - first.entries.len()]);
            }
        }
    }
}

/// No entry lies deeper than the configured maximum, nor deeper than the
/// ceiling.
pub proof fn law_depth_is_bounded(
    fs: spec_fn(Seq<char>) -> Option<Seq<DirItemView>>,
    rules: Rules,
    path: Seq<char>,
    root: DirItemView,
)
    ensures
        forall|i: int|
            0 <= i < walk(fs, rules, root_entry(path, root)).entries.len() ==> {
                let entry = #[trigger] walk(fs, rules, root_entry(path, root)).entries[i];
                entry.depth <= rules.args.max_depth && entry.depth <= DEPTH_CEILING
            },
{
    let root = root_entry(path, root);
    lemma_depth_entry(
        fs,
        rules,
        root,
        Set::empty(),
        depth_limit(&rules.args),
        depth_limit(&rules.args),
    );
}

/// What holds of the directories entered: each resolves to a canonical path
/// that was not entered before and is recorded after, and no two resolve to
/// the same.
pub open spec fn entered_once(before: Set<Seq<char>>, walked: Walked) -> bool {
    &&& forall|c: Seq<char>| before.contains(c) ==> walked.visited.contains(c)
    &&& forall|j: int|
        0 <= j < walked.entered.len() ==> {
            let dir = #[trigger] walked.entered[j];
            &&& dir.canonical is Some
            &&& !before.contains(dir.canonical->0)
            &&& walked.visited.contains(dir.canonical->0)
        }
    &&& forall|j: int, k: int|
        0 <= j < k < walked.entered.len() ==> (#[trigger] walked.entered[j]).canonical != (
        #[trigger] walked.entered[k]).canonical
    &&& forall|c: Seq<char>|
        walked.visited.contains(c) ==> before.contains(c) || exists|j: int|
            0 <= j < walked.entered.len() && (#[trigger] walked.entered[j]).canonical == Some(c)
}

proof fn lemma_entered_entry(
    fs: spec_fn(Seq<char>) -> Option<Seq<DirItemView>>,
    rules: Rules,
    entry: EntryView,
    visited: Set<Seq<char>>,
    levels: nat,
)
    ensures
        entered_once(visited, walk_entry(fs, rules, entry, visited, levels)),
    decreases levels, 0nat,
{
    let walked = walk_entry(fs, rules, entry, visited, levels);
    if levels > 0 && may_enter(entry, visited, &rules.args) {
        let children = listed_children(entry, items_or_none(fs(entry.path)), rules);
        let own = entry.canonical->0;
        let inner = visited.insert(own);
        lemma_entered_list(fs, rules, children, inner, (levels - 1) as nat);
        let below = walk_list(fs, rules, children, inner, (levels - 1) as nat);
        assert(walked.entered == seq![entry] + below.entered);
        assert(inner.contains(own));
        assert forall|j: int| 0 <= j < walked.entered.len() implies {
            let dir = #[trigger] walked.entered[j];
            &&& dir.canonical is Some
            &&& !visited.contains(dir.canonical->0)
            &&& walked.visited.contains(dir.canonical->0)
        } by {
            if j > 0 {
                assert(walked.entered[j] == below.entered[j - 1]);
                assert(inner.contains(below.entered[j - 1].canonical->0) || !visited.contains(
                    below.entered[j - 1].canonical->0,
                ));
            }
        }
        assert forall|j: int, k: int| 0 <= j < k < walked.entered.len() implies (
        #[trigger] walked.entered[j]).canonical != (#[trigger] walked.entered[k]).canonical by {
            assert(walked.entered[k] == below.entered[k - 1]);
            if j > 0 {
                assert(walked.entered[j] == below.entered[j - 1]);
            } else {
                assert(!inner.contains(below.entered[k - 1].canonical->0));
            }
        }
        assert forall|c: Seq<char>| walked.visited.contains(c) implies visited.contains(c)
            || exists|j: int|
            0 <= j < walked.entered.len() && (#[trigger] walked.entered[j]).canonical == Some(
                c,
            ) by {
            if inner.contains(c) {
                if !visited.contains(c) {
                    assert(walked.entered[0].canonical == Some(c));
                }
            } else {
                let j = choose|j: int|
                    0 <= j < below.entered.len() && (#[trigger] below.entered[j]).canonical
                        == Some(c);
                assert(walked.entered[j + 1] == below.entered[j]);
            }
        }
        assert forall|c: Seq<char>| visited.contains(c) implies walked.visited.contains(c) by {
            assert(inner.contains(c));
        }
    }
}

proof fn lemma_entered_list(
    fs: spec_fn(Seq<char>) -> Option<Seq<DirItemView>>,
    rules: Rules,
    list: Seq<EntryView>,
    visited: Set<Seq<char>>,
    levels: nat,
)
    ensures
        entered_once(visited, walk_list(fs, rules, list, visited, levels)),
    decreases levels, 1 + list.len(),
{
    let walked = walk_list(fs, rules, list, visited, levels);
    if list.len() > 0 {
        let first = walk_entry(fs, rules, list[0], visited, levels);
        lemma_entered_entry(fs, rules, list[0], visited, levels);
        let rest = list.drop_first();
        lemma_entered_list(fs, rules, rest, first.visited, levels);
        let after = walk_list(fs, rules, rest, first.visited, levels);
        let n = first.entered.len() as int;
        assert(walked.entered == first.entered + after.entered);
        assert forall|j: int| 0 <= j < walked.entered.len() implies {
            let dir = #[trigger] walked.entered[j];
            &&& dir.canonical is Some
            &&& !visited.contains(dir.canonical->0)
            &&& walked.visited.contains(dir.canonical->0)
        } by {
            if j < n {
                assert(walked.entered[j] == first.entered[j]);
                assert(first.visited.contains(first.entered[j].canonical->0));
            } else {
                assert(walked.entered[j] == after.entered[j - n]);
                assert(!first.visited.contains(after.entered[j - n].canonical->0));
            }
        }
        assert forall|j: int, k: int| 0 <= j < k < walked.entered.len() implies (
        #[trigger] walked.entered[j]).canonical != (#[trigger] walked.entered[k]).canonical by {
            if k < n {
                assert(walked.entered[j] == first.entered[j]);
                assert(walked.entered[k] == first.entered[k]);
            } else if j >= n {
                assert(walked.entered[j] == after.entered[j - n]);
                assert(walked.entered[k] == after.entered[k - n]);
            } else {
                assert(walked.entered[j] == first.entered[j]);
                assert(walked.entered[k] == after.entered[k - n]);
                assert(first.visited.contains(first.entered[j].canonical->0));
                assert(!first.visited.contains(after.entered[k - n].canonical->0));
            }
        }
        assert forall|c: Seq<char>| walked.visited.contains(c) implies visited.contains(c)
            || exists|j: int|
            0 <= j < walked.entered.len() && (#[trigger] walked.entered[j]).canonical == Some(
                c,
            ) by {
            if first.visited.contains(c) {
                if !visited.contains(c) {
                    let j = choose|j: int|
                        0 <= j < first.entered.len() && (#[trigger] first.entered[j]).canonical
                            == Some(c);
                    assert(walked.entered[j] == first.entered[j]);
                }
            } else {
                let j = choose|j: int|
                    0 <= j < after.entered.len() && (#[trigger] after.entered[j]).canonical
                        == Some(c);
                assert(walked.entered[j + n] == after.entered[j]);
            }
        }
        assert forall|c: Seq<char>| visited.contains(c) implies walked.visited.contains(c) by {
            assert(first.visited.contains(c));
        }
    }
}

/// Each physical directory is entered at most once: the directories entered
/// resolve to canonical paths that differ from one another. This holds of
/// every tree, also where links lead back to a directory above them.
pub proof fn law_each_directory_entered_once(
    fs: spec_fn(Seq<char>) -> Option<Seq<DirItemView>>,
    rules: Rules,
    path: Seq<char>,
    root: DirItemView,
)
    ensures
        forall|j: int|
            0 <= j < walk(fs, rules, root_entry(path, root)).entered.len() ==> (
            #[trigger] walk(fs, rules, root_entry(path, root)).entered[j]).canonical is Some,
        forall|j: int, k: int|
            0 <= j < k < walk(fs, rules, root_entry(path, root)).entered.len() ==> (
            #[trigger] walk(fs, rules, root_entry(path, root)).entered[j]).canonical != (
            #[trigger] walk(fs, rules, root_entry(path, root)).entered[k]).canonical,
{
    let root = root_entry(path, root);
    lemma_entered_entry(fs, rules, root, Set::empty(), depth_limit(&rules.args));
}

/// A name that a directory can list: not empty and without a slash.
pub open spec fn valid_name(name: Seq<char>) -> bool {
    name.len() > 0 && !name.contains('/')
}

/// Every item that `fs` lists has a valid name.
pub open spec fn names_valid(fs: spec_fn(Seq<char>) -> Option<Seq<DirItemView>>) -> bool {
    forall|path: Seq<char>, k: int|
        fs(path) is Some && 0 <= k < (fs(path)->0).len() ==> valid_name(
            (#[trigger] (fs(path)->0)[k]).name,
        )
}

/// Whether a relative path leads through a directory whose name is among
/// `names`: whether one of its components before the last is.
pub open spec fn below_named(rel_path: Seq<char>, names: Seq<Seq<char>>) -> bool {
    exists|j: int|
        0 <= j < split(rel_path, '/').len() - 1 && names.contains(
            #[trigger] split(rel_path, '/')[j],
        )
}

/// What the pruning law rests on: the relative path of an entry ends in the
/// entry's name, and leads through no excluded directory.
pub open spec fn pruned(entry: EntryView, rules: Rules) -> bool {
    &&& entry.rel_path.len() > 0
    &&& entry.rel_path.last() != '/'
    &&& split(entry.rel_path, '/').last() == entry.name
    &&& !below_named(entry.rel_path, texts(rules.args.exclude_dir@))
    &&& included(entry, rules)
}

proof fn lemma_child_pruned(parent: EntryView, item: DirItemView, rules: Rules)
    requires
        valid_name(item.name),
        included(child_entry(parent, item), rules),
        parent.rel_path.len() == 0 || (pruned(parent, rules) && parent.kind
            == EntryKind::Directory),
    ensures
        pruned(child_entry(parent, item), rules),
{
    let child = child_entry(parent, item);
    let names = texts(rules.args.exclude_dir@);
    let name = item.name;
    assert(name[name.len() - 1] == name.last());
    assert(name.last() != '/');
    if parent.rel_path.len() == 0 {
        assert(child.rel_path == name);
        lemma_split_single(name, '/');
        assert(seq![name].last() == name);
    } else {
        let before = split(parent.rel_path, '/');
        assert(child.rel_path == parent.rel_path + seq!['/'] + name);
        lemma_split_join(parent.rel_path, name, '/');
        let parts = split(child.rel_path, '/');
        assert(parts == before.push(name));
        assert(child.rel_path.last() == name.last());
        lemma_split_push(parent.rel_path.drop_last(), parent.rel_path.last(), '/');
        assert(parent.rel_path.drop_last().push(parent.rel_path.last()) == parent.rel_path);
        assert(before.len() >= 1);
        if below_named(child.rel_path, names) {
            let j = choose|j: int|
                0 <= j < parts.len() - 1 && names.contains(#[trigger] split(child.rel_path, '/')[j]);
            assert(parts[j] == before[j]);
            if j < before.len() - 1 {
                assert(names.contains(split(parent.rel_path, '/')[j]));
                assert(below_named(parent.rel_path, names));
            } else {
                assert(before[j] == parent.name);
            }
        }
    }
}

/// Nothing below an excluded directory is listed: the relative path of an
/// entry behind the root leads through no directory whose name is excluded,
/// provided the items of the tree have valid names.
pub proof fn law_excluded_directories_are_pruned(
    fs: spec_fn(Seq<char>) -> Option<Seq<DirItemView>>,
    rules: Rules,
    path: Seq<char>,
    root: DirItemView,
)
    requires
        names_valid(fs),
    ensures
        forall|i: int|
            1 <= i < walk(fs, rules, root_entry(path, root)).entries.len() ==> {
                let entry = #[trigger] walk(fs, rules, root_entry(path, root)).entries[i];
                &&& !below_named(entry.rel_path, texts(rules.args.exclude_dir@))
                &&& entry.kind == EntryKind::Directory ==> !texts(
                    rules.args.exclude_dir@,
                ).contains(entry.name)
            },
{
    let root = root_entry(path, root);
    let inv = |e: EntryView| pruned(e, rules);
    assert forall|parent: EntryView, i: int|
        (parent.rel_path.len() == 0 || (pruned(parent, rules) && parent.kind
            == EntryKind::Directory)) && 0 <= i < listed_children(
            parent,
            items_or_none(fs(parent.path)),
            rules,
        ).len() implies pruned(
        #[trigger] listed_children(parent, items_or_none(fs(parent.path)), rules)[i],
        rules,
    ) by {
        let items = items_or_none(fs(parent.path));
        lemma_listed_children(parent, items, rules);
        let child = listed_children(parent, items, rules)[i];
        let k = choose|k: int| 0 <= k < items.len() && child == child_entry(parent, items[k]);
        assert(fs(parent.path) is Some);
        assert(valid_name((fs(parent.path)->0)[k].name));
        lemma_child_pruned(parent, items[k], rules);
    }
    assert(hereditary(inv, fs, rules));
    lemma_below_root(fs, rules, root, inv);
}

/// Two traversals of the same tree under the same rules list the same
/// entries, and the documents made from them are the same text.
pub proof fn law_runs_agree(
    fs: spec_fn(Seq<char>) -> Option<Seq<DirItemView>>,
    rules: Rules,
    path: Seq<char>,
    root: DirItemView,
    first: Seq<EntryView>,
    second: Seq<EntryView>,
    contents: Seq<Option<Vec<String>>>,
)
    requires
        first == walk(fs, rules, root_entry(path, root)).entries,
        second == walk(fs, rules, root_entry(path, root)).entries,
    ensures
        first == second,
        repository_text(first, contents) == repository_text(second, contents),
{
    let root = root_entry(path, root);
}

/// The entry of item `k` of the directory `dir`, as `fs` lists it.
pub open spec fn child_at(
    fs: spec_fn(Seq<char>) -> Option<Seq<DirItemView>>,
    dir: EntryView,
    k: int,
) -> EntryView {
    child_entry(dir, items_or_none(fs(dir.path))[k])
}

/// Every included child of every directory entered is listed.
pub open spec fn children_listed(
    fs: spec_fn(Seq<char>) -> Option<Seq<DirItemView>>,
    rules: Rules,
    walked: Walked,
) -> bool {
    forall|j: int, k: int|
        0 <= j < walked.entered.len() && 0 <= k < items_or_none(
            fs(walked.entered[j].path),
        ).len() && included(child_at(fs, walked.entered[j], k), rules)
            ==> walked.entries.contains(#[trigger] child_at(fs, walked.entered[j], k))
}

proof fn lemma_insert_contains(sorted: Seq<EntryView>, entry: EntryView, x: EntryView)
    requires
        sorted.contains(x) || x == entry,
    ensures
        insert_sorted(sorted, entry).contains(x),
    decreases sorted.len(),
{
    let out = insert_sorted(sorted, entry);
    if sorted.len() > 0 && lex_lt(entry.path, sorted.last().path) {
        let shorter = sorted.drop_last();
        let inner = insert_sorted(shorter, entry);
        assert(out == inner.push(sorted.last()));
        if x == sorted.last() {
            assert(out[out.len() - 1] == x);
        } else {
            if x != entry {
                let i = choose|i: int| 0 <= i < sorted.len() && sorted[i] == x;
                assert(shorter[i] == x);
            }
            lemma_insert_contains(shorter, entry, x);
            let i = choose|i: int| 0 <= i < inner.len() && inner[i] == x;
            assert(out[i] == x);
        }
    } else {
        assert(out == sorted.push(entry));
        if x == entry {
            assert(out[sorted.len() as int] == x);
        } else {
            let i = choose|i: int| 0 <= i < sorted.len() && sorted[i] == x;
            assert(out[i] == x);
        }
    }
}

proof fn lemma_sort_contains(list: Seq<EntryView>, x: EntryView)
    requires
        list.contains(x),
    ensures
        sort_entries(list).contains(x),
    decreases list.len(),
{
    if list.len() > 0 {
        let shorter = list.drop_last();
        if x != list.last() {
            let i = choose|i: int| 0 <= i < list.len() && list[i] == x;
            assert(shorter[i] == x);
            lemma_sort_contains(shorter, x);
        }
        lemma_insert_contains(sort_entries(shorter), list.last(), x);
    }
}

proof fn lemma_keep_contains(list: Seq<EntryView>, rules: Rules, x: EntryView)
    requires
        list.contains(x),
        included(x, rules),
    ensures
        keep_included(list, rules).contains(x),
    decreases list.len(),
{
    if list.len() > 0 {
        let rest = list.drop_first();
        let kept = keep_included(rest, rules);
        let out = keep_included(list, rules);
        if x == list[0] {
            assert(out == seq![list[0]] + kept);
            assert(out[0] == x);
        } else {
            let i = choose|i: int| 0 <= i < list.len() && list[i] == x;
            assert(rest[i - 1] == x);
            lemma_keep_contains(rest, rules, x);
            let k = choose|k: int| 0 <= k < kept.len() && kept[k] == x;
            if included(list[0], rules) {
                assert(out == seq![list[0]] + kept);
                assert(out[k + 1] == x);
            } else {
                assert(out[k] == x);
            }
        }
    }
}

proof fn lemma_list_heads(
    fs: spec_fn(Seq<char>) -> Option<Seq<DirItemView>>,
    rules: Rules,
    list: Seq<EntryView>,
    visited: Set<Seq<char>>,
    levels: nat,
    x: EntryView,
)
    requires
        list.contains(x),
    ensures
        walk_list(fs, rules, list, visited, levels).entries.contains(x),
    decreases list.len(),
{
    if list.len() > 0 {
        let first = walk_entry(fs, rules, list[0], visited, levels);
        let rest = list.drop_first();
        let after = walk_list(fs, rules, rest, first.visited, levels);
        let all = walk_list(fs, rules, list, visited, levels).entries;
        assert(all == first.entries + after.entries);
        assert(first.entries[0] == list[0]);
        if x == list[0] {
            assert(all[0] == x);
        } else {
            let i = choose|i: int| 0 <= i < list.len() && list[i] == x;
            assert(rest[i - 1] == x);
            lemma_list_heads(fs, rules, rest, first.visited, levels, x);
            let k = choose|k: int| 0 <= k < after.entries.len() && after.entries[k] == x;
            assert(all[first.entries.len() + k] == x);
        }
    }
}

proof fn lemma_complete_entry(
    fs: spec_fn(Seq<char>) -> Option<Seq<DirItemView>>,
    rules: Rules,
    entry: EntryView,
    visited: Set<Seq<char>>,
    levels: nat,
)
    ensures
        children_listed(fs, rules, walk_entry(fs, rules, entry, visited, levels)),
    decreases levels, 0nat,
{
    let walked = walk_entry(fs, rules, entry, visited, levels);
    if levels > 0 && may_enter(entry, visited, &rules.args) {
        let items = items_or_none(fs(entry.path));
        let children = listed_children(entry, items, rules);
        let inner = visited.insert(entry.canonical->0);
        lemma_complete_list(fs, rules, children, inner, (levels - 1) as nat);
        let below = walk_list(fs, rules, children, inner, (levels - 1) as nat);
        assert(walked.entered == seq![entry] + below.entered);
        assert(walked.entries == seq![entry] + below.entries);
        assert forall|j: int, k: int|
            0 <= j < walked.entered.len() && 0 <= k < items_or_none(
                fs(walked.entered[j].path),
            ).len() && included(
                child_at(fs, walked.entered[j], k),
                rules,
            ) implies walked.entries.contains(#[trigger] child_at(fs, walked.entered[j], k)) by {
            let child = child_at(fs, walked.entered[j], k);
            if j == 0 {
                let all = children_of(entry, items);
                assert(all[k] == child);
                lemma_sort_contains(all, child);
                lemma_keep_contains(sort_entries(all), rules, child);
                lemma_list_heads(fs, rules, children, inner, (levels - 1) as nat, child);
            } else {
                assert(walked.entered[j] == below.entered[j - 1]);
                assert(below.entries.contains(child_at(fs, below.entered[j - 1], k)));
            }
            let at = choose|at: int| 0 <= at < below.entries.len() && below.entries[at] == child;
            assert(walked.entries[at + 1] == child);
        }
    }
}

proof fn lemma_complete_list(
    fs: spec_fn(Seq<char>) -> Option<Seq<DirItemView>>,
    rules: Rules,
    list: Seq<EntryView>,
    visited: Set<Seq<char>>,
    levels: nat,
)
    ensures
        children_listed(fs, rules, walk_list(fs, rules, list, visited, levels)),
    decreases levels, 1 + list.len(),
{
    let walked = walk_list(fs, rules, list, visited, levels);
    if list.len() > 0 {
        let first = walk_entry(fs, rules, list[0], visited, levels);
        lemma_complete_entry(fs, rules, list[0], visited, levels);
        let rest = list.drop_first();
        lemma_complete_list(fs, rules, rest, first.visited, levels);
        let after = walk_list(fs, rules, rest, first.visited, levels);
        let n = first.entered.len() as int;
        assert(walked.entered == first.entered + after.entered);
        assert(walked.entries == first.entries + after.entries);
        assert forall|j: int, k: int|
            0 <= j < walked.entered.len() && 0 <= k < items_or_none(
                fs(walked.entered[j].path),
            ).len() && included(
                child_at(fs, walked.entered[j], k),
                rules,
            ) implies walked.entries.contains(#[trigger] child_at(fs, walked.entered[j], k)) by {
            let child = child_at(fs, walked.entered[j], k);
            if j < n {
                assert(walked.entered[j] == first.entered[j]);
                assert(first.entries.contains(child_at(fs, first.entered[j], k)));
                let at = choose|at: int|
                    0 <= at < first.entries.len() && first.entries[at] == child;
                assert(walked.entries[at] == child);
            } else {
                assert(walked.entered[j] == after.entered[j - n]);
                assert(after.entries.contains(child_at(fs, after.entered[j - n], k)));
                let at = choose|at: int|
                    0 <= at < after.entries.len() && after.entries[at] == child;
                assert(walked.entries[first.entries.len() + at] == child);
            }
        }
    }
}

/// Every child of a directory entered is listed, if the rules include it.
pub proof fn law_included_children_are_listed(
    fs: spec_fn(Seq<char>) -> Option<Seq<DirItemView>>,
    rules: Rules,
    path: Seq<char>,
    root: DirItemView,
)
    ensures
        children_listed(fs, rules, walk(fs, rules, root_entry(path, root))),
{
    let root = root_entry(path, root);
    lemma_complete_entry(fs, rules, root, Set::empty(), depth_limit(&rules.args));
}

/// Whether an entry is a directory that a traversal enters unless it has
/// entered the same physical directory before.
pub open spec fn enterable(entry: EntryView, rules: Rules) -> bool {
    &&& entry.kind == EntryKind::Directory
    &&& entry.depth < depth_limit(&rules.args)
    &&& (entry.is_symlink ==> rules.args.follow_symlinks || entry.depth == 0)
    &&& entry.canonical is Some
}

proof fn lemma_reached_entry(
    fs: spec_fn(Seq<char>) -> Option<Seq<DirItemView>>,
    rules: Rules,
    entry: EntryView,
    visited: Set<Seq<char>>,
    levels: nat,
)
    requires
        levels == levels_of(entry, rules),
    ensures
        forall|i: int|
            0 <= i < walk_entry(fs, rules, entry, visited, levels).entries.len() && enterable(
                walk_entry(fs, rules, entry, visited, levels).entries[i],
                rules,
            ) ==> walk_entry(fs, rules, entry, visited, levels).visited.contains(
                (#[trigger] walk_entry(fs, rules, entry, visited, levels).entries[i]).canonical->0,
            ),
    decreases levels, 0nat,
{
    let walked = walk_entry(fs, rules, entry, visited, levels);
    lemma_entered_entry(fs, rules, entry, visited, levels);
    if levels > 0 && may_enter(entry, visited, &rules.args) {
        let items = items_or_none(fs(entry.path));
        let children = listed_children(entry, items, rules);
        let inner = visited.insert(entry.canonical->0);
        lemma_listed_children(entry, items, rules);
        lemma_reached_list(fs, rules, children, inner, (levels - 1) as nat);
        lemma_entered_list(fs, rules, children, inner, (levels - 1) as nat);
        let below = walk_list(fs, rules, children, inner, (levels - 1) as nat);
        assert(walked.entries == seq![entry] + below.entries);
        assert(inner.contains(entry.canonical->0));
        assert forall|i: int|
            0 <= i < walked.entries.len() && enterable(
                walked.entries[i],
                rules,
            ) implies walked.visited.contains((#[trigger] walked.entries[i]).canonical->0) by {
            if i > 0 {
                assert(walked.entries[i] == below.entries[i - 1]);
            }
        }
    } else {
        assert(walked.entries == seq![entry]);
    }
}

proof fn lemma_reached_list(
    fs: spec_fn(Seq<char>) -> Option<Seq<DirItemView>>,
    rules: Rules,
    list: Seq<EntryView>,
    visited: Set<Seq<char>>,
    levels: nat,
)
    requires
        forall|i: int| 0 <= i < list.len() ==> levels_of(#[trigger] list[i], rules) == levels,
    ensures
        forall|i: int|
            0 <= i < walk_list(fs, rules, list, visited, levels).entries.len() && enterable(
                walk_list(fs, rules, list, visited, levels).entries[i],
                rules,
            ) ==> walk_list(fs, rules, list, visited, levels).visited.contains(
                (#[trigger] walk_list(fs, rules, list, visited, levels).entries[i]).canonical->0,
            ),
    decreases levels, 1 + list.len(),
{
    let walked = walk_list(fs, rules, list, visited, levels);
    if list.len() > 0 {
        let first = walk_entry(fs, rules, list[0], visited, levels);
        lemma_reached_entry(fs, rules, list[0], visited, levels);
        let rest = list.drop_first();
        assert(forall|i: int| 0 <= i < rest.len() ==> rest[i] == list[i + 1]);
        lemma_reached_list(fs, rules, rest, first.visited, levels);
        lemma_entered_list(fs, rules, rest, first.visited, levels);
        let after = walk_list(fs, rules, rest, first.visited, levels);
        assert(walked.entries == first.entries + after.entries);
        assert forall|i: int|
            0 <= i < walked.entries.len() && enterable(
                walked.entries[i],
                rules,
            ) implies walked.visited.contains((#[trigger] walked.entries[i]).canonical->0) by {
            if i < first.entries.len() {
                assert(walked.entries[i] == first.entries[i]);
                assert(first.visited.contains(first.entries[i].canonical->0));
            } else {
                assert(walked.entries[i] == after.entries[i - first.entries.len()]);
            }
        }
    }
}

/// Every listed directory above the depth limit is entered, or resolves to a
/// physical directory that was entered by another name; a directory that is
/// a link only where links are followed.
pub proof fn law_enterable_directories_are_entered(
    fs: spec_fn(Seq<char>) -> Option<Seq<DirItemView>>,
    rules: Rules,
    path: Seq<char>,
    root: DirItemView,
)
    ensures
        forall|i: int|
            0 <= i < walk(fs, rules, root_entry(path, root)).entries.len() && enterable(
                #[trigger] walk(fs, rules, root_entry(path, root)).entries[i],
                rules,
            ) ==> exists|j: int|
                0 <= j < walk(fs, rules, root_entry(path, root)).entered.len() && (
                #[trigger] walk(fs, rules, root_entry(path, root)).entered[j]).canonical == walk(
                    fs,
                    rules,
                    root_entry(path, root),
                ).entries[i].canonical,
{
    let root = root_entry(path, root);
    let walked = walk(fs, rules, root);
    let levels = depth_limit(&rules.args);
    lemma_reached_entry(fs, rules, root, Set::empty(), levels);
    lemma_entered_entry(fs, rules, root, Set::empty(), levels);
    assert forall|i: int|
        0 <= i < walked.entries.len() && enterable(
            #[trigger] walked.entries[i],
            rules,
        ) implies exists|j: int|
        0 <= j < walked.entered.len() && (#[trigger] walked.entered[j]).canonical
            == walked.entries[i].canonical by {
        let c = walked.entries[i].canonical->0;
        let before = Set::<Seq<char>>::empty();
        assert(walked.visited.contains(c));
        assert(!before.contains(c));
        assert(entered_once(before, walked));
        let j = choose|j: int|
            0 <= j < walked.entered.len() && (#[trigger] walked.entered[j]).canonical == Some(c);
        assert(walked.entered[j].canonical == walked.entries[i].canonical);
    }
}

/// No entry of the list comes, by its path, before one that stands earlier.
pub open spec fn ordered_by_path(list: Seq<EntryView>) -> bool {
    forall|i: int, j: int|
        #![trigger list[i], list[j]]
        0 <= i < j < list.len() ==> !lex_lt(list[j].path, list[i].path)
}

proof fn lemma_insert_ordered(sorted: Seq<EntryView>, entry: EntryView)
    requires
        ordered_by_path(sorted),
    ensures
        ordered_by_path(insert_sorted(sorted, entry)),
        insert_sorted(sorted, entry).to_multiset() == sorted.to_multiset().insert(entry),
    decreases sorted.len(),
{
    let out = insert_sorted(sorted, entry);
    if sorted.len() > 0 && lex_lt(entry.path, sorted.last().path) {
        let last = sorted.last();
        let shorter = sorted.drop_last();
        let inner = insert_sorted(shorter, entry);
        assert(forall|i: int| 0 <= i < shorter.len() ==> shorter[i] == sorted[i]);
        lemma_insert_ordered(shorter, entry);
        let below = |e: EntryView| !lex_lt(last.path, e.path);
        assert forall|i: int| 0 <= i < shorter.len() implies below(#[trigger] shorter[i]) by {
            assert(!lex_lt(sorted[sorted.len() - 1].path, sorted[i].path));
        }
        lemma_lex_order(entry.path, last.path, last.path);
        lemma_insert_keeps(shorter, entry, below);
        assert(out == inner.push(last));
        assert forall|i: int, j: int| 0 <= i < j < out.len() implies !lex_lt(
            out[j].path,
            out[i].path,
        ) by {
            if j < inner.len() {
                assert(out[i] == inner[i] && out[j] == inner[j]);
            } else {
                assert(below(inner[i]));
            }
        }
        vstd::seq_lib::to_multiset_build(inner, last);
        vstd::seq_lib::to_multiset_build(shorter, last);
        assert(shorter.push(last) == sorted);
        assert(out.to_multiset() =~= sorted.to_multiset().insert(entry));
    } else {
        assert(out == sorted.push(entry));
        assert forall|i: int, j: int| 0 <= i < j < out.len() implies !lex_lt(
            out[j].path,
            out[i].path,
        ) by {
            if j < sorted.len() {
                assert(out[i] == sorted[i] && out[j] == sorted[j]);
            } else {
                let last = sorted.last();
                assert(!lex_lt(entry.path, last.path));
                if i < sorted.len() - 1 {
                    assert(!lex_lt(sorted[sorted.len() - 1].path, sorted[i].path));
                    lemma_lex_order(entry.path, sorted[i].path, last.path);
                }
            }
        }
        vstd::seq_lib::to_multiset_build(sorted, entry);
    }
}

proof fn lemma_sort_ordered(list: Seq<EntryView>)
    ensures
        ordered_by_path(sort_entries(list)),
        sort_entries(list).to_multiset() == list.to_multiset(),
    decreases list.len(),
{
    if list.len() > 0 {
        let shorter = list.drop_last();
        lemma_sort_ordered(shorter);
        lemma_insert_ordered(sort_entries(shorter), list.last());
        vstd::seq_lib::to_multiset_build(shorter, list.last());
        assert(shorter.push(list.last()) == list);
    }
}

proof fn lemma_keep_ordered(list: Seq<EntryView>, rules: Rules)
    requires
        ordered_by_path(list),
    ensures
        ordered_by_path(keep_included(list, rules)),
    decreases list.len(),
{
    if list.len() > 0 {
        let rest = list.drop_first();
        let kept = keep_included(rest, rules);
        let out = keep_included(list, rules);
        assert(forall|i: int| 0 <= i < rest.len() ==> rest[i] == list[i + 1]);
        assert forall|i: int, j: int| 0 <= i < j < rest.len() implies !lex_lt(
            rest[j].path,
            rest[i].path,
        ) by {
            assert(!lex_lt(list[j + 1].path, list[i + 1].path));
        }
        lemma_keep_ordered(rest, rules);
        if included(list[0], rules) {
            let above = |e: EntryView| !lex_lt(e.path, list[0].path);
            assert forall|i: int| 0 <= i < rest.len() implies above(#[trigger] rest[i]) by {
                assert(!lex_lt(list[i + 1].path, list[0].path));
            }
            lemma_keep_keeps(rest, rules, above);
            assert(out == seq![list[0]] + kept);
            assert forall|i: int, j: int| 0 <= i < j < out.len() implies !lex_lt(
                out[j].path,
                out[i].path,
            ) by {
                assert(out[j] == kept[j - 1]);
                if i > 0 {
                    assert(out[i] == kept[i - 1]);
                } else {
                    assert(above(kept[j - 1]));
                }
            }
        }
    }
}

/// The children of a directory are listed in lexicographic order of their
/// paths, whatever the order in which the directory hands out its items:
/// sorting changes the order of the entries and nothing else.
pub proof fn law_children_are_listed_in_order(
    parent: EntryView,
    items: Seq<DirItemView>,
    rules: Rules,
)
    ensures
        ordered_by_path(sort_entries(children_of(parent, items))),
        sort_entries(children_of(parent, items)).to_multiset() == children_of(
            parent,
            items,
        ).to_multiset(),
        ordered_by_path(listed_children(parent, items, rules)),
{
    lemma_sort_ordered(children_of(parent, items));
    lemma_keep_ordered(sort_entries(children_of(parent, items)), rules);
}

} // verus!
