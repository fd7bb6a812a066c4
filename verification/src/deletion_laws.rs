//! What a deletion does with every entry of a tree.

use crate::cleanup_tree;
use crate::cleanup_tree::{
    DirectoryIdentity, EntryView, EventView, Phase, PhaseView, TreeEntry, TreeEvent, TreeView,
};
use crate::failures;
use crate::failures::{IoError, IoErrorView};
use crate::fs_path;
use crate::tree_model;
use crate::tree_model::{Child, Node};
use vstd::prelude::*;

verus! {

/// How a deletion begins: with the directory around the tree, unless the path has no
/// parent or no file name.
pub proof fn lemma_how_a_deletion_begins(
    path: Seq<u8>,
    label: Seq<char>,
    expected: DirectoryIdentity,
)
    ensures
        ({
            let start = cleanup_tree::begin(path, label, expected);
            &&& start.expected == expected
            &&& start.failures == failures::no_failures()
            &&& fs_path::parent(path) is None ==> start.phase == PhaseView::Finished(
                Err(failures::other_error("Missing quarantine parent"@)),
            )
            &&& fs_path::parent(path) is Some && fs_path::file_name(path) is None ==> start.phase
                == PhaseView::Finished(Err(failures::other_error("Missing quarantine filename"@)))
            &&& fs_path::parent(path) is Some && fs_path::file_name(path) is Some ==> {
                &&& start.phase is OpenParent
                &&& start.parent == fs_path::parent(path)->0
                &&& start.entered == seq![
                    EntryView { name: fs_path::file_name(path)->0, path, label },
                ]
            }
        }),
{
}

/// The steps up to the root of the tree: what is not there counts as deleted, any other
/// failure is the outcome, and the tree is cleared only if its root has the expected
/// device and inode.
pub proof fn lemma_steps_up_to_the_root(
    tree: TreeView,
    error: IoErrorView,
    found: DirectoryIdentity,
)
    ensures
        tree.phase is OpenParent || tree.phase is OpenRoot ==> ({
            let failed = cleanup_tree::next(tree, EventView::Failed(error));
            &&& error.kind == "NotFound"@ ==> failed.phase == PhaseView::Finished(Ok(()))
            &&& error.kind != "NotFound"@ ==> failed.phase == PhaseView::Finished(Err(error))
        }),
        tree.phase is OpenParent ==> cleanup_tree::next(tree, EventView::Opened) == (TreeView {
            phase: PhaseView::OpenRoot,
            ..tree
        }),
        tree.phase is OpenRoot ==> cleanup_tree::next(tree, EventView::Opened) == (TreeView {
            phase: PhaseView::CheckRoot,
            ..tree
        }),
        tree.phase is CheckRoot ==> cleanup_tree::next(tree, EventView::Failed(error)).phase
            == PhaseView::Finished(Err(error)),
        tree.phase is CheckRoot ==> ({
            let known = cleanup_tree::next(tree, EventView::Identity(found));
            if found.device == tree.expected.device && found.inode == tree.expected.inode {
                known == (TreeView { phase: PhaseView::OpenStream, ..tree })
            } else {
                known.phase == PhaseView::Finished(
                    Err(
                        failures::other_error(
                            "Quarantined worktree identity changed before deletion"@,
                        ),
                    ),
                )
            }
        }),
{
}

/// Every entry that is read is opened next, unless its name is exactly a dot or two
/// dots; those are passed over.
pub proof fn lemma_every_entry_but_the_dots_is_opened(
    tree: TreeView,
    name: Seq<u8>,
    label: Seq<char>,
)
    requires
        tree.phase is ReadEntry,
    ensures
        ({
            let read = cleanup_tree::next(tree, EventView::Entry { name, label });
            &&& name != seq![0x2eu8] && name != seq![0x2eu8, 0x2eu8] ==> read == (TreeView {
                phase: PhaseView::OpenEntry(
                    EntryView {
                        name,
                        path: fs_path::join(tree.entered[tree.entered.len() - 1].path, name),
                        label,
                    },
                ),
                ..tree
            })
            &&& name == seq![0x2eu8] || name == seq![0x2eu8, 0x2eu8] ==> read == tree
        }),
{
}

/// The steps on one entry. A directory is entered, and read unless 64 directories were
/// entered before it, which is recorded; what is no directory is unlinked; any other
/// failure is recorded. After that the next entry is read.
pub proof fn lemma_steps_on_an_entry(tree: TreeView, entry: EntryView, error: IoErrorView)
    ensures
        tree.phase == PhaseView::OpenEntry(entry) ==> ({
            let opened = cleanup_tree::next(tree, EventView::Opened);
            let failed = cleanup_tree::next(tree, EventView::Failed(error));
            &&& opened.entered == tree.entered.push(entry)
            &&& tree.entered.len() < 64 ==> opened.phase is OpenStream && opened.failures
                == tree.failures
            &&& tree.entered.len() >= 64 ==> opened.phase is StatOpened && opened.failures
                == failures::recorded(
                tree.failures,
                entry.label,
                Err(failures::other_error("Directory nesting exceeds cleanup limit"@)),
            )
            &&& error.kind == "NotADirectory"@ || error.kind == "FilesystemLoop"@ ==> failed == (
            TreeView { phase: PhaseView::UnlinkEntry(entry), ..tree })
            &&& error.kind != "NotADirectory"@ && error.kind != "FilesystemLoop"@ ==> failed == (
            TreeView {
                phase: PhaseView::ReadEntry,
                failures: failures::recorded(tree.failures, entry.label, Err(error)),
                ..tree
            })
        }),
        tree.phase == PhaseView::UnlinkEntry(entry) ==> cleanup_tree::next(tree, EventView::Removed)
            == (TreeView { phase: PhaseView::ReadEntry, ..tree }) && cleanup_tree::next(
            tree,
            EventView::Failed(error),
        ) == (TreeView {
            phase: PhaseView::ReadEntry,
            failures: failures::recorded(tree.failures, entry.label, Err(error)),
            ..tree
        }),
{
}

/// The steps on a directory that was entered. Its entries are read until they end or
/// reading fails, which is recorded. Then it is removed if its name still leads to the
/// same device and inode; what came of that is recorded, and the directory around it
/// goes on, or the deletion is finished with what the failures amount to.
pub proof fn lemma_steps_on_a_directory(
    tree: TreeView,
    opened: DirectoryIdentity,
    current: DirectoryIdentity,
    error: IoErrorView,
    result: Result<(), IoErrorView>,
)
    requires
        tree.entered.len() > 0,
    ensures
        ({
            let label = tree.entered[tree.entered.len() - 1].label;
            let stopped = TreeView {
                phase: PhaseView::StatOpened,
                failures: failures::recorded(tree.failures, label, Err(error)),
                ..tree
            };
            let failed = cleanup_tree::next(tree, EventView::Failed(error));
            &&& tree.phase is OpenStream ==> cleanup_tree::next(tree, EventView::Opened) == (
            TreeView { phase: PhaseView::ReadEntry, ..tree }) && failed == stopped
            &&& tree.phase is ReadEntry ==> cleanup_tree::next(tree, EventView::End) == (TreeView {
                phase: PhaseView::StatOpened,
                ..tree
            }) && failed == stopped
            &&& tree.phase is StatOpened ==> cleanup_tree::next(tree, EventView::Identity(opened))
                == (TreeView { phase: PhaseView::StatCurrent(opened), ..tree }) && failed
                == cleanup_tree::leaving(tree, Err(error))
            &&& tree.phase == PhaseView::StatCurrent(opened) ==> failed == cleanup_tree::leaving(
                tree,
                Err(error),
            ) && cleanup_tree::next(tree, EventView::Identity(current)) == (if opened.device
                == current.device && opened.inode == current.inode {
                TreeView { phase: PhaseView::RemoveDirectory, ..tree }
            } else {
                cleanup_tree::leaving(
                    tree,
                    Err(failures::other_error("Directory identity changed before removal"@)),
                )
            })
            &&& tree.phase is RemoveDirectory ==> cleanup_tree::next(tree, EventView::Removed)
                == cleanup_tree::leaving(tree, Ok(())) && failed == cleanup_tree::leaving(
                tree,
                Err(error),
            )
        }),
        ({
            let left = cleanup_tree::leaving(tree, result);
            let after = failures::recorded(
                tree.failures,
                tree.entered[tree.entered.len() - 1].label,
                result,
            );
            &&& left.entered == tree.entered.take(tree.entered.len() - 1)
            &&& left.expected == tree.expected
            &&& tree.entered.len() == 1 ==> left.phase == PhaseView::Finished(
                failures::finished(after),
            )
            &&& tree.entered.len() > 1 ==> left.phase is ReadEntry && left.failures == after
        }),
{
    assert(tree.entered.drop_last() =~= tree.entered.take(tree.entered.len() - 1));
}

/// The entry that a list of positions leads to: the entry itself, or that of its child
/// at the first position, and so on.
pub open spec fn entry_at(node: Node, steps: Seq<int>) -> Option<Node>
    decreases steps.len(),
{
    if steps.len() == 0 {
        Some(node)
    } else {
        match node {
            Node::Directory { children, .. } => if 0 <= steps[0] < children.len() {
                entry_at(children[steps[0]].node, steps.drop_first())
            } else {
                None
            },
            _ => None,
        }
    }
}

/// The path of the entry that a list of positions leads to.
pub open spec fn path_at(node: Node, path: Seq<u8>, steps: Seq<int>) -> Seq<u8>
    decreases steps.len(),
{
    if steps.len() == 0 {
        path
    } else {
        let child = node->children[steps[0]];
        path_at(child.node, fs_path::join(path, child.name), steps.drop_first())
    }
}

/// Whether every directory on the way to an entry can be read and is not nested too
/// deeply, and no entry on the way is named by a dot or two dots.
pub open spec fn is_reached(node: Node, depth: int, steps: Seq<int>) -> bool
    decreases steps.len(),
{
    steps.len() == 0 || (match node {
        Node::Directory { streamed, children, .. } => {
            &&& depth < 64
            &&& streamed is Ok
            &&& 0 <= steps[0] < children.len()
            &&& children[steps[0]].name != seq![0x2eu8]
            &&& children[steps[0]].name != seq![0x2eu8, 0x2eu8]
            &&& is_reached(children[steps[0]].node, depth + 1, steps.drop_first())
        },
        _ => false,
    })
}

proof fn lemma_child_removals(children: Seq<Child>, path: Seq<u8>, depth: int, i: int, p: Seq<u8>)
    requires
        0 <= i < children.len(),
        !cleanup_tree::is_dot(children[i].name),
        tree_model::node_removals(
            children[i].node,
            fs_path::join(path, children[i].name),
            depth + 1,
        ).contains(p),
    ensures
        tree_model::children_removals(children, path, depth).contains(p),
    decreases children.len(),
{
    let last = children[children.len() - 1];
    let before = tree_model::children_removals(children.drop_last(), path, depth);
    let own = if cleanup_tree::is_dot(last.name) {
        seq![]
    } else {
        tree_model::node_removals(last.node, fs_path::join(path, last.name), depth + 1)
    };
    let all = before + own;
    assert(tree_model::children_removals(children, path, depth) == all);
    if i < children.len() - 1 {
        assert(children.drop_last()[i] == children[i]);
        lemma_child_removals(children.drop_last(), path, depth, i, p);
        let k = choose|k: int| 0 <= k < before.len() && before[k] == p;
        assert(all[k] == p);
    } else {
        let k = choose|k: int| 0 <= k < own.len() && own[k] == p;
        assert(all[before.len() + k] == p);
    }
}

/// Whether removing an entry is to be tried: it is no directory, or it is one whose
/// name still leads to it.
pub open spec fn is_removable(node: Node) -> bool {
    match node {
        Node::Unopened { error, .. } => error.kind == "NotADirectory"@ || error.kind
            == "FilesystemLoop"@,
        Node::Directory { closing, .. } => closing.opened is Ok && closing.opened
            == closing.current,
    }
}

proof fn lemma_reached_is_removed(node: Node, path: Seq<u8>, depth: int, steps: Seq<int>)
    requires
        is_reached(node, depth, steps),
        entry_at(node, steps) matches Some(entry) && is_removable(entry),
    ensures
        tree_model::node_removals(node, path, depth).contains(path_at(node, path, steps)),
    decreases steps.len(),
{
    let all = tree_model::node_removals(node, path, depth);
    let wanted = path_at(node, path, steps);
    if steps.len() == 0 {
        match node {
            Node::Unopened { error, .. } => {
                assert(all[0] == path);
            },
            Node::Directory { closing, .. } => {
                assert(all[all.len() - 1] == path);
            },
        }
    } else {
        let children = node->children;
        let child = children[steps[0]];
        lemma_reached_is_removed(
            child.node,
            fs_path::join(path, child.name),
            depth + 1,
            steps.drop_first(),
        );
        lemma_child_removals(children, path, depth, steps[0], wanted);
        let inner = tree_model::children_removals(children, path, depth);
        let k = choose|k: int| 0 <= k < inner.len() && inner[k] == wanted;
        assert(all[k] == wanted);
    }
}

/// Removing is tried of every entry of the tree that can be reached, the root included,
/// unless it cannot be opened or its name leads to another directory.
pub proof fn lemma_every_entry_is_removed(
    path: Seq<u8>,
    label: Seq<char>,
    expected: DirectoryIdentity,
    root: Node,
    steps: Seq<int>,
)
    requires
        fs_path::parent(path) is Some,
        fs_path::file_name(path) is Some,
        root is Directory,
        is_reached(root, 0, steps),
        entry_at(root, steps) matches Some(entry) && is_removable(entry),
    ensures
        cleanup_tree::removals(
            cleanup_tree::begin(path, label, expected),
            seq![EventView::Opened, EventView::Opened, EventView::Identity(expected)]
                + tree_model::directory_events(root, 0),
        ).contains(path_at(root, path, steps)),
{
    tree_model::lemma_the_whole_tree_is_dealt_with(path, label, expected, root);
    lemma_reached_is_removed(root, path, 0, steps);
}

proof fn lemma_removed_child(children: Seq<Child>, path: Seq<u8>, depth: int, p: Seq<u8>) -> (i: int)
    requires
        tree_model::children_removals(children, path, depth).contains(p),
    ensures
        0 <= i < children.len(),
        !cleanup_tree::is_dot(children[i].name),
        tree_model::node_removals(
            children[i].node,
            fs_path::join(path, children[i].name),
            depth + 1,
        ).contains(p),
    decreases children.len(),
{
    let all = tree_model::children_removals(children, path, depth);
    let k = choose|k: int| 0 <= k < all.len() && all[k] == p;
    let last = children[children.len() - 1];
    let before = tree_model::children_removals(children.drop_last(), path, depth);
    let own = if cleanup_tree::is_dot(last.name) {
        seq![]
    } else {
        tree_model::node_removals(last.node, fs_path::join(path, last.name), depth + 1)
    };
    assert(all == before + own);
    if k < before.len() {
        assert(before[k] == p);
        let i = lemma_removed_child(children.drop_last(), path, depth, p);
        assert(children.drop_last()[i] == children[i]);
        i
    } else {
        assert(own[k - before.len()] == p);
        children.len() - 1
    }
}

proof fn lemma_removed_is_reached(node: Node, path: Seq<u8>, depth: int, p: Seq<u8>) -> (steps: Seq<
    int,
>)
    requires
        tree_model::node_removals(node, path, depth).contains(p),
    ensures
        is_reached(node, depth, steps),
        entry_at(node, steps) matches Some(entry) && is_removable(entry),
        path_at(node, path, steps) == p,
    decreases node,
{
    let all = tree_model::node_removals(node, path, depth);
    let k = choose|k: int| 0 <= k < all.len() && all[k] == p;
    match node {
        Node::Unopened { .. } => seq![],
        Node::Directory { streamed, children, listed, closing } => {
            let inner = tree_model::children_removals(children, path, depth);
            if depth < 64 && streamed is Ok && k < inner.len() {
                assert(inner[k] == p);
                let i = lemma_removed_child(children, path, depth, p);
                let rest = lemma_removed_is_reached(
                    children[i].node,
                    fs_path::join(path, children[i].name),
                    depth + 1,
                    p,
                );
                let steps = seq![i] + rest;
                assert(steps.drop_first() =~= rest);
                steps
            } else {
                seq![]
            }
        },
    }
}

/// Nothing is removed but entries of the tree. The positions that lead to a removed
/// entry are given back.
pub proof fn lemma_only_entries_of_the_tree_are_removed(
    path: Seq<u8>,
    label: Seq<char>,
    expected: DirectoryIdentity,
    root: Node,
    removed: Seq<u8>,
) -> (steps: Seq<int>)
    requires
        fs_path::parent(path) is Some,
        fs_path::file_name(path) is Some,
        root is Directory,
        cleanup_tree::removals(
            cleanup_tree::begin(path, label, expected),
            seq![EventView::Opened, EventView::Opened, EventView::Identity(expected)]
                + tree_model::directory_events(root, 0),
        ).contains(removed),
    ensures
        is_reached(root, 0, steps),
        entry_at(root, steps) matches Some(entry) && is_removable(entry),
        path_at(root, path, steps) == removed,
{
    tree_model::lemma_the_whole_tree_is_dealt_with(path, label, expected, root);
    lemma_removed_is_reached(root, path, 0, removed)
}

/// Whether a result is a success, or says that there is nothing of that name.
pub open spec fn is_gone(result: Result<(), IoErrorView>) -> bool {
    result is Ok || result->Err_0.kind == "NotFound"@
}

/// Whether an entry is gone once it was dealt with: unlinked or removed, or not there;
/// and a directory was read to its end and is not nested too deeply.
pub open spec fn is_dealt_with(node: Node, depth: int) -> bool {
    match node {
        Node::Unopened { error, unlinked } => if error.kind == "NotADirectory"@ || error.kind
            == "FilesystemLoop"@ {
            is_gone(unlinked)
        } else {
            error.kind == "NotFound"@
        },
        Node::Directory { streamed, listed, closing, .. } => {
            &&& depth < 64
            &&& is_gone(streamed)
            &&& streamed is Ok ==> is_gone(listed)
            &&& closing.opened matches Err(error) ==> error.kind == "NotFound"@
            &&& closing.opened is Ok ==> (closing.current matches Err(error) ==> error.kind
                == "NotFound"@)
            &&& closing.opened is Ok && closing.current is Ok ==> closing.opened == closing.current
                && is_gone(closing.removed)
        },
    }
}

proof fn lemma_uncounted_parts(
    first: Seq<(Seq<char>, Result<(), IoErrorView>)>,
    second: Seq<(Seq<char>, Result<(), IoErrorView>)>,
)
    requires
        failures::counted(first + second) == 0,
    ensures
        failures::counted(first) == 0,
        failures::counted(second) == 0,
{
    failures::lemma_counted_concat(first, second);
}

proof fn lemma_uncounted_child(children: Seq<Child>, depth: int, i: int)
    requires
        0 <= i < children.len(),
        !cleanup_tree::is_dot(children[i].name),
        failures::counted(tree_model::children_results(children, depth)) == 0,
    ensures
        failures::counted(
            tree_model::node_results(children[i].node, children[i].label, depth + 1),
        ) == 0,
    decreases children.len(),
{
    let last = children[children.len() - 1];
    let before = tree_model::children_results(children.drop_last(), depth);
    let own = if cleanup_tree::is_dot(last.name) {
        seq![]
    } else {
        tree_model::node_results(last.node, last.label, depth + 1)
    };
    lemma_uncounted_parts(before, own);
    if i < children.len() - 1 {
        assert(children.drop_last()[i] == children[i]);
        lemma_uncounted_child(children.drop_last(), depth, i);
    }
}

proof fn lemma_two_uncounted(
    label: Seq<char>,
    first: Result<(), IoErrorView>,
    second: Result<(), IoErrorView>,
)
    requires
        failures::counted(seq![(label, first), (label, second)]) == 0,
    ensures
        is_gone(first),
        is_gone(second),
{
    assert(seq![(label, first), (label, second)] =~= seq![(label, first)] + seq![(label, second)]);
    lemma_uncounted_parts(seq![(label, first)], seq![(label, second)]);
    failures::lemma_recording_one_result(failures::no_failures(), label, first);
    failures::lemma_recording_one_result(failures::no_failures(), label, second);
}

proof fn lemma_uncounted_is_dealt_with(node: Node, label: Seq<char>, depth: int, steps: Seq<int>)
    requires
        failures::counted(tree_model::node_results(node, label, depth)) == 0,
        is_reached(node, depth, steps),
    ensures
        entry_at(node, steps) matches Some(entry) && is_dealt_with(entry, depth + steps.len()),
    decreases steps.len(),
{
    reveal_strlit("Other");
    reveal_strlit("NotFound");
    assert("Other"@.len() == 5 && "NotFound"@.len() == 8);
    match node {
        Node::Unopened { error, unlinked } => {
            failures::lemma_recording_one_result(failures::no_failures(), label, unlinked);
            failures::lemma_recording_one_result(failures::no_failures(), label, Err(error));
        },
        Node::Directory { streamed, children, listed, closing } => {
            let closed = tree_model::closing_result(closing);
            if depth >= 64 {
                lemma_two_uncounted(
                    label,
                    Err(failures::other_error("Directory nesting exceeds cleanup limit"@)),
                    closed,
                );
            } else if streamed is Err {
                lemma_two_uncounted(label, streamed, closed);
            } else {
                let inner = tree_model::children_results(children, depth);
                let own = seq![(label, listed), (label, closed)];
                lemma_uncounted_parts(inner, own);
                lemma_two_uncounted(label, listed, closed);
                if steps.len() > 0 {
                    let child = children[steps[0]];
                    lemma_uncounted_child(children, depth, steps[0]);
                    lemma_uncounted_is_dealt_with(
                        child.node,
                        child.label,
                        depth + 1,
                        steps.drop_first(),
                    );
                }
            }
        },
    }
}

/// A deletion that succeeds leaves nothing behind: every entry that can be reached,
/// the root included, was unlinked or removed, or was not there.
pub proof fn lemma_a_deletion_that_succeeds_leaves_nothing_behind(
    path: Seq<u8>,
    label: Seq<char>,
    expected: DirectoryIdentity,
    root: Node,
    steps: Seq<int>,
)
    requires
        fs_path::parent(path) is Some,
        fs_path::file_name(path) is Some,
        root is Directory,
        is_reached(root, 0, steps),
        cleanup_tree::run(
            cleanup_tree::begin(path, label, expected),
            seq![EventView::Opened, EventView::Opened, EventView::Identity(expected)]
                + tree_model::directory_events(root, 0),
        ).phase matches PhaseView::Finished(Ok(_)),
    ensures
        entry_at(root, steps) matches Some(entry) && is_dealt_with(entry, steps.len() as int),
{
    tree_model::lemma_deletion_succeeds_unless_something_fails(path, label, expected, root);
    lemma_uncounted_is_dealt_with(root, label, 0, steps);
}

proof fn lemma_dealt_with_is_uncounted(node: Node, label: Seq<char>, depth: int)
    requires
        forall|steps: Seq<int>| #[trigger]
            is_reached(node, depth, steps) ==> (entry_at(node, steps) matches Some(entry)
                ==> is_dealt_with(entry, depth + steps.len())),
    ensures
        failures::counted(tree_model::node_results(node, label, depth)) == 0,
    decreases node, 1int,
{
    let none = Seq::<int>::empty();
    assert(is_reached(node, depth, none));
    assert(entry_at(node, none) == Some(node));
    assert(is_dealt_with(node, depth));
    match node {
        Node::Unopened { error, unlinked } => {
            failures::lemma_recording_one_result(failures::no_failures(), label, unlinked);
            failures::lemma_recording_one_result(failures::no_failures(), label, Err(error));
        },
        Node::Directory { streamed, children, listed, closing } => {
            let closed = tree_model::closing_result(closing);
            assert(is_gone(closed));
            failures::lemma_recording_one_result(failures::no_failures(), label, streamed);
            failures::lemma_recording_one_result(failures::no_failures(), label, listed);
            failures::lemma_recording_one_result(failures::no_failures(), label, closed);
            if streamed is Err {
                failures::lemma_counted_concat(seq![(label, streamed)], seq![(label, closed)]);
                assert(seq![(label, streamed)] + seq![(label, closed)] =~= seq![
                    (label, streamed),
                    (label, closed),
                ]);
            } else {
                assert forall|i: int, steps: Seq<int>|
                    0 <= i < children.len() && !cleanup_tree::is_dot(children[i].name)
                        && #[trigger] is_reached(children[i].node, depth + 1, steps) implies (
                entry_at(children[i].node, steps) matches Some(entry) ==> is_dealt_with(
                    entry,
                    depth + 1 + steps.len(),
                )) by {
                    let longer = seq![i] + steps;
                    assert(longer.drop_first() =~= steps);
                    assert(is_reached(node, depth, longer));
                }
                lemma_dealt_with_children_are_uncounted(children, depth);
                failures::lemma_counted_concat(seq![(label, listed)], seq![(label, closed)]);
                assert(seq![(label, listed)] + seq![(label, closed)] =~= seq![
                    (label, listed),
                    (label, closed),
                ]);
                failures::lemma_counted_concat(
                    tree_model::children_results(children, depth),
                    seq![(label, listed), (label, closed)],
                );
            }
        },
    }
}

proof fn lemma_dealt_with_children_are_uncounted(children: Seq<Child>, depth: int)
    requires
        forall|i: int, steps: Seq<int>|
            0 <= i < children.len() && !cleanup_tree::is_dot(children[i].name) && #[trigger]
            is_reached(children[i].node, depth + 1, steps) ==> (entry_at(
                children[i].node,
                steps,
            ) matches Some(entry) ==> is_dealt_with(entry, depth + 1 + steps.len())),
    ensures
        failures::counted(tree_model::children_results(children, depth)) == 0,
    decreases children, 0int,
{
    if children.len() > 0 {
        let at = children.len() - 1;
        let last = children[at];
        let fewer = children.drop_last();
        assert forall|i: int, steps: Seq<int>|
            0 <= i < fewer.len() && !cleanup_tree::is_dot(fewer[i].name) && #[trigger] is_reached(
                fewer[i].node,
                depth + 1,
                steps,
            ) implies (entry_at(fewer[i].node, steps) matches Some(entry) ==> is_dealt_with(
            entry,
            depth + 1 + steps.len(),
        )) by {
            assert(fewer[i] == children[i]);
            assert(is_reached(children[i].node, depth + 1, steps));
        }
        lemma_dealt_with_children_are_uncounted(fewer, depth);
        let own = if cleanup_tree::is_dot(last.name) {
            seq![]
        } else {
            tree_model::node_results(last.node, last.label, depth + 1)
        };
        if !cleanup_tree::is_dot(last.name) {
            assert forall|steps: Seq<int>| #[trigger]
                is_reached(last.node, depth + 1, steps) implies (entry_at(
                last.node,
                steps,
            ) matches Some(entry) ==> is_dealt_with(entry, depth + 1 + steps.len())) by {
                assert(is_reached(children[at].node, depth + 1, steps));
            }
            lemma_dealt_with_is_uncounted(last.node, last.label, depth + 1);
        }
        failures::lemma_counted_concat(tree_model::children_results(fewer, depth), own);
    }
}

/// If every entry that can be reached is unlinked or removed, or is not there, the
/// deletion succeeds.
pub proof fn lemma_a_deletion_succeeds_if_every_entry_is_dealt_with(
    path: Seq<u8>,
    label: Seq<char>,
    expected: DirectoryIdentity,
    root: Node,
)
    requires
        fs_path::parent(path) is Some,
        fs_path::file_name(path) is Some,
        root is Directory,
        forall|steps: Seq<int>| #[trigger]
            is_reached(root, 0, steps) ==> (entry_at(root, steps) matches Some(entry)
                ==> is_dealt_with(entry, steps.len() as int)),
    ensures
        cleanup_tree::run(
            cleanup_tree::begin(path, label, expected),
            seq![EventView::Opened, EventView::Opened, EventView::Identity(expected)]
                + tree_model::directory_events(root, 0),
        ).phase matches PhaseView::Finished(Ok(_)),
{
    tree_model::lemma_deletion_succeeds_unless_something_fails(path, label, expected, root);
    lemma_dealt_with_is_uncounted(root, label, 0);
}

/// Each phase but the last waits for what came of its operation, be it a failure or
/// not.
pub proof fn lemma_every_operation_can_be_answered(
    phase: PhaseView,
    error: IoErrorView,
    identity: DirectoryIdentity,
    name: Seq<u8>,
    label: Seq<char>,
)
    ensures
        phase !is Finished ==> cleanup_tree::answers(EventView::Failed(error), phase),
        phase is OpenParent || phase is OpenRoot || phase is OpenStream || phase is OpenEntry
            ==> cleanup_tree::answers(EventView::Opened, phase),
        phase is CheckRoot || phase is StatOpened || phase is StatCurrent ==> cleanup_tree::answers(
            EventView::Identity(identity),
            phase,
        ),
        phase is ReadEntry ==> cleanup_tree::answers(EventView::End, phase)
            && cleanup_tree::answers(EventView::Entry { name, label }, phase),
        phase is UnlinkEntry || phase is RemoveDirectory ==> cleanup_tree::answers(
            EventView::Removed,
            phase,
        ),
{
}

/// What came of an operation, and the entry that is dealt with, are told as they are.
pub proof fn lemma_tree_events_tell_what_was_given(
    error: IoError,
    identity: DirectoryIdentity,
    name: Vec<u8>,
    label: String,
    entry: TreeEntry,
)
    ensures
        TreeEvent::Failed(error)@ == EventView::Failed(
            IoErrorView { kind: error.kind@, errno: error.errno, message: error.message@ },
        ),
        TreeEvent::Identity(identity)@ == EventView::Identity(identity),
        (TreeEvent::Entry { name, label })@ == (EventView::Entry { name: name@, label: label@ }),
        Phase::OpenEntry(entry)@ == PhaseView::OpenEntry(
            EntryView { name: entry.name@, path: entry.path@, label: entry.label@ },
        ),
        Phase::UnlinkEntry(entry)@ == PhaseView::UnlinkEntry(
            EntryView { name: entry.name@, path: entry.path@, label: entry.label@ },
        ),
{
}

} // verus!
