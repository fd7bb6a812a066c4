//! What a recursive deletion does to a whole tree, whatever fails on the way.

use crate::cleanup_tree;
use crate::cleanup_tree::{DirectoryIdentity, EventView, PhaseView, TreeView};
use crate::failures;
use crate::failures::IoErrorView;
use crate::fs_path;
use vstd::prelude::*;

verus! {

broadcast use vstd::string::group_string_axioms;

/// What comes of removing a directory once its entries were dealt with.
pub struct Closing {
    /// Identifying it by its handle.
    pub opened: Result<DirectoryIdentity, IoErrorView>,
    /// Identifying it by its name.
    pub current: Result<DirectoryIdentity, IoErrorView>,
    /// Removing it.
    pub removed: Result<(), IoErrorView>,
}

/// An entry of a directory, as a deletion comes upon it.
pub enum Node {
    /// Opening it as a directory fails; if that is because it is none, unlinking it
    /// is tried.
    Unopened { error: IoErrorView, unlinked: Result<(), IoErrorView> },
    /// It is a directory: whether its entries can be read, the entries, and
    /// whether the last read went well.
    Directory {
        streamed: Result<(), IoErrorView>,
        children: Seq<Child>,
        listed: Result<(), IoErrorView>,
        closing: Closing,
    },
}

/// A directory entry with its name and how its path prints.
pub struct Child {
    pub name: Seq<u8>,
    pub label: Seq<char>,
    pub node: Node,
}

/// The answer that reports success or a failure.
pub open spec fn reply(result: Result<(), IoErrorView>, success: EventView) -> EventView {
    match result {
        Ok(()) => success,
        Err(error) => EventView::Failed(error),
    }
}

/// The answer that reports an identity or a failure.
pub open spec fn identity_reply(result: Result<DirectoryIdentity, IoErrorView>) -> EventView {
    match result {
        Ok(identity) => EventView::Identity(identity),
        Err(error) => EventView::Failed(error),
    }
}

/// The answers on removing a directory.
pub open spec fn closing_events(closing: Closing) -> Seq<EventView> {
    if closing.opened is Err {
        seq![identity_reply(closing.opened)]
    } else if closing.current is Err || closing.opened != closing.current {
        seq![identity_reply(closing.opened), identity_reply(closing.current)]
    } else {
        seq![
            identity_reply(closing.opened),
            identity_reply(closing.current),
            reply(closing.removed, EventView::Removed),
        ]
    }
}

/// What is recorded of removing a directory.
pub open spec fn closing_result(closing: Closing) -> Result<(), IoErrorView> {
    match (closing.opened, closing.current) {
        (Err(error), _) => Err(error),
        (_, Err(error)) => Err(error),
        (Ok(opened), Ok(current)) => if opened == current {
            closing.removed
        } else {
            Err(failures::other_error("Directory identity changed before removal"@))
        },
    }
}

/// The paths that are removed in removing a directory.
pub open spec fn closing_removals(closing: Closing, path: Seq<u8>) -> Seq<Seq<u8>> {
    if closing.opened is Ok && closing.opened == closing.current {
        seq![path]
    } else {
        seq![]
    }
}

/// The answers on an entry at this depth.
pub open spec fn node_events(node: Node, depth: int) -> Seq<EventView>
    decreases node, 1int,
{
    match node {
        Node::Unopened { error, unlinked } => if cleanup_tree::is_not_directory(error) {
            seq![EventView::Failed(error), reply(unlinked, EventView::Removed)]
        } else {
            seq![EventView::Failed(error)]
        },
        Node::Directory { .. } => seq![EventView::Opened] + directory_events(node, depth),
    }
}

/// The answers on a directory that was entered at this depth.
pub open spec fn directory_events(node: Node, depth: int) -> Seq<EventView>
    decreases node, 0int,
{
    match node {
        Node::Directory { streamed, children, listed, closing } => {
            if depth >= cleanup_tree::MAX_DEPTH {
                closing_events(closing)
            } else if streamed is Err {
                seq![reply(streamed, EventView::Opened)] + closing_events(closing)
            } else {
                seq![EventView::Opened] + children_events(children, depth) + seq![
                    reply(listed, EventView::End),
                ] + closing_events(closing)
            }
        },
        _ => seq![],
    }
}

/// The answers on the entries of a directory at this depth.
pub open spec fn children_events(children: Seq<Child>, depth: int) -> Seq<EventView>
    decreases children, 0int,
{
    if children.len() == 0 {
        seq![]
    } else {
        let last = children[children.len() - 1];
        children_events(children.drop_last(), depth) + seq![
            EventView::Entry { name: last.name, label: last.label },
        ] + if cleanup_tree::is_dot(last.name) {
            seq![]
        } else {
            node_events(last.node, depth + 1)
        }
    }
}

/// What is recorded on an entry at this depth.
pub open spec fn node_results(node: Node, label: Seq<char>, depth: int) -> Seq<
    (Seq<char>, Result<(), IoErrorView>),
>
    decreases node, 1int,
{
    match node {
        Node::Unopened { error, unlinked } => if cleanup_tree::is_not_directory(error) {
            seq![(label, unlinked)]
        } else {
            seq![(label, Err(error))]
        },
        Node::Directory { .. } => directory_results(node, label, depth),
    }
}

/// What is recorded on a directory that was entered at this depth: what its
/// entries gave, then what reading and removing it gave. Entries that are nested
/// too deeply are not looked at.
pub open spec fn directory_results(node: Node, label: Seq<char>, depth: int) -> Seq<
    (Seq<char>, Result<(), IoErrorView>),
>
    decreases node, 0int,
{
    match node {
        Node::Directory { streamed, children, listed, closing } => {
            if depth >= cleanup_tree::MAX_DEPTH {
                seq![
                    (
                        label,
                        Err(failures::other_error("Directory nesting exceeds cleanup limit"@)),
                    ),
                    (label, closing_result(closing)),
                ]
            } else if streamed is Err {
                seq![(label, streamed), (label, closing_result(closing))]
            } else {
                children_results(children, depth) + seq![
                    (label, listed),
                    (label, closing_result(closing)),
                ]
            }
        },
        _ => seq![],
    }
}

/// What is recorded on the entries of a directory at this depth.
pub open spec fn children_results(children: Seq<Child>, depth: int) -> Seq<
    (Seq<char>, Result<(), IoErrorView>),
>
    decreases children, 0int,
{
    if children.len() == 0 {
        seq![]
    } else {
        let last = children[children.len() - 1];
        children_results(children.drop_last(), depth) + if cleanup_tree::is_dot(last.name) {
            seq![]
        } else {
            node_results(last.node, last.label, depth + 1)
        }
    }
}

/// The paths that are removed on an entry at this depth.
pub open spec fn node_removals(node: Node, path: Seq<u8>, depth: int) -> Seq<Seq<u8>>
    decreases node, 1int,
{
    match node {
        Node::Unopened { error, .. } => if cleanup_tree::is_not_directory(error) {
            seq![path]
        } else {
            seq![]
        },
        Node::Directory { .. } => directory_removals(node, path, depth),
    }
}

/// The paths that are removed on a directory at this depth: those of its entries,
/// and then its own.
pub open spec fn directory_removals(node: Node, path: Seq<u8>, depth: int) -> Seq<Seq<u8>>
    decreases node, 0int,
{
    match node {
        Node::Directory { streamed, children, listed, closing } => {
            if depth >= cleanup_tree::MAX_DEPTH || streamed is Err {
                closing_removals(closing, path)
            } else {
                children_removals(children, path, depth) + closing_removals(closing, path)
            }
        },
        _ => seq![],
    }
}

/// The paths that are removed on the entries of a directory at this depth.
pub open spec fn children_removals(children: Seq<Child>, path: Seq<u8>, depth: int) -> Seq<Seq<u8>>
    decreases children, 0int,
{
    if children.len() == 0 {
        seq![]
    } else {
        let last = children[children.len() - 1];
        children_removals(children.drop_last(), path, depth) + if cleanup_tree::is_dot(last.name) {
            seq![]
        } else {
            node_removals(last.node, fs_path::join(path, last.name), depth + 1)
        }
    }
}

/// A deletion with more results recorded, in a phase.
pub open spec fn having_recorded(
    tree: TreeView,
    results: Seq<(Seq<char>, Result<(), IoErrorView>)>,
    phase: PhaseView,
) -> TreeView {
    TreeView { failures: failures::recorded_all(tree.failures, results), phase, ..tree }
}

proof fn lemma_one_event(tree: TreeView, event: EventView)
    ensures
        cleanup_tree::run(tree, seq![event]) == cleanup_tree::next(tree, event),
        cleanup_tree::removals(tree, seq![event]) == cleanup_tree::removed_path(tree),
{
    reveal_with_fuel(cleanup_tree::run, 2);
    reveal_with_fuel(cleanup_tree::removals, 2);
    assert(cleanup_tree::removed_path(tree) + seq![] =~= cleanup_tree::removed_path(tree));
}

proof fn lemma_one_result(
    failures: failures::FailuresView,
    label: Seq<char>,
    result: Result<(), IoErrorView>,
)
    ensures
        failures::recorded_all(failures, seq![(label, result)]) == failures::recorded(
            failures,
            label,
            result,
        ),
{
    let results = seq![(label, result)];
    assert(results.drop_last() =~= seq![]);
    assert(failures::recorded_all(failures, results.drop_last()) == failures);
}

proof fn lemma_closing(tree: TreeView, closing: Closing)
    requires
        tree.phase is StatOpened,
        tree.entered.len() > 0,
    ensures
        cleanup_tree::run(tree, closing_events(closing)) == cleanup_tree::leaving(
            tree,
            closing_result(closing),
        ),
        cleanup_tree::removals(tree, closing_events(closing)) == closing_removals(
            closing,
            tree.entered.last().path,
        ),
{
    reveal_with_fuel(cleanup_tree::run, 4);
    reveal_with_fuel(cleanup_tree::removals, 4);
    let events = closing_events(closing);
    if closing.opened is Err {
        lemma_one_event(tree, events[0]);
    } else {
        let second = cleanup_tree::next(tree, events[0]);
        let rest = events.drop_first();
        if closing.current is Err || closing.opened != closing.current {
            assert(rest =~= seq![events[1]]);
            lemma_one_event(second, events[1]);
            assert(cleanup_tree::removals(tree, events) =~= closing_removals(
                closing,
                tree.entered.last().path,
            ));
        } else {
            let third = cleanup_tree::next(second, events[1]);
            assert(rest.drop_first() =~= seq![events[2]]);
            lemma_one_event(third, events[2]);
            assert(cleanup_tree::removals(tree, events) =~= closing_removals(
                closing,
                tree.entered.last().path,
            ));
        }
    }
}

/// The entries of a directory are all dealt with, one after the other.
proof fn lemma_children(tree: TreeView, children: Seq<Child>, depth: int)
    requires
        tree.phase is ReadEntry,
        tree.entered.len() == depth + 1,
        0 <= depth < cleanup_tree::MAX_DEPTH,
    ensures
        cleanup_tree::run(tree, children_events(children, depth)) == having_recorded(
            tree,
            children_results(children, depth),
            PhaseView::ReadEntry,
        ),
        cleanup_tree::removals(tree, children_events(children, depth)) == children_removals(
            children,
            tree.entered.last().path,
            depth,
        ),
    decreases children, 0int,
{
    if children.len() > 0 {
        let last = children[children.len() - 1];
        let before = children.drop_last();
        lemma_children(tree, before, depth);
        let read = EventView::Entry { name: last.name, label: last.label };
        let reached = having_recorded(
            tree,
            children_results(before, depth),
            PhaseView::ReadEntry,
        );
        let first = children_events(before, depth) + seq![read];
        cleanup_tree::lemma_run_concat(tree, children_events(before, depth), seq![read]);
        lemma_one_event(reached, read);
        let events = children_events(children, depth);
        let own = if cleanup_tree::is_dot(last.name) {
            seq![]
        } else {
            node_events(last.node, depth + 1)
        };
        cleanup_tree::lemma_run_concat(tree, first, own);
        let opening = cleanup_tree::next(reached, read);
        if cleanup_tree::is_dot(last.name) {
            assert(children_results(children, depth) =~= children_results(before, depth));
            assert(cleanup_tree::removals(tree, events) =~= children_removals(
                children,
                tree.entered.last().path,
                depth,
            ));
        } else {
            lemma_node(opening, last.node);
            failures::lemma_recorded_all_concat(
                tree.failures,
                children_results(before, depth),
                node_results(last.node, last.label, depth + 1),
            );
            assert(cleanup_tree::removals(tree, events) =~= children_removals(
                children,
                tree.entered.last().path,
                depth,
            ));
        }
    } else {
        assert(failures::recorded_all(tree.failures, children_results(children, depth))
            == tree.failures);
    }
}

/// The entries of a directory are read to their end.
proof fn lemma_listing(
    tree: TreeView,
    children: Seq<Child>,
    listed: Result<(), IoErrorView>,
    depth: int,
)
    requires
        tree.phase is OpenStream,
        tree.entered.len() == depth + 1,
        0 <= depth < cleanup_tree::MAX_DEPTH,
    ensures
        ({
            let events = seq![EventView::Opened] + children_events(children, depth) + seq![
                reply(listed, EventView::End),
            ];
            &&& cleanup_tree::run(tree, events) == having_recorded(
                tree,
                children_results(children, depth) + seq![(tree.entered.last().label, listed)],
                PhaseView::StatOpened,
            )
            &&& cleanup_tree::removals(tree, events) == children_removals(
                children,
                tree.entered.last().path,
                depth,
            )
        }),
    decreases children, 1int,
{
    let label = tree.entered.last().label;
    let opened = seq![EventView::Opened];
    let listing = children_events(children, depth);
    let ended = seq![reply(listed, EventView::End)];
    let reading = cleanup_tree::in_phase(tree, PhaseView::ReadEntry);
    let at_end = having_recorded(tree, children_results(children, depth), PhaseView::ReadEntry);
    let removed = children_removals(children, tree.entered.last().path, depth);
    cleanup_tree::lemma_run_concat(tree, opened, listing);
    cleanup_tree::lemma_run_concat(tree, opened + listing, ended);
    lemma_one_event(tree, EventView::Opened);
    lemma_children(reading, children, depth);
    lemma_one_event(at_end, ended[0]);
    lemma_one_result(at_end.failures, label, listed);
    failures::lemma_recorded_all_concat(
        tree.failures,
        children_results(children, depth),
        seq![(label, listed)],
    );
    assert(seq![] + removed + seq![] =~= removed);
}

/// A directory that was entered is cleared as far as possible, and left.
proof fn lemma_directory(tree: TreeView, node: Node, depth: int)
    requires
        node is Directory,
        tree.phase is OpenStream,
        tree.entered.len() == depth + 1,
        0 <= depth < cleanup_tree::MAX_DEPTH,
    ensures
        ({
            let label = tree.entered.last().label;
            let results = directory_results(node, label, depth);
            &&& results.len() > 0
            &&& results.last() == (label, closing_result(node->closing))
            &&& cleanup_tree::run(tree, directory_events(node, depth)) == cleanup_tree::leaving(
                having_recorded(tree, results.drop_last(), PhaseView::StatOpened),
                closing_result(node->closing),
            )
            &&& cleanup_tree::removals(tree, directory_events(node, depth)) == directory_removals(
                node,
                tree.entered.last().path,
                depth,
            )
        }),
    decreases node, 0int,
{
    let label = tree.entered.last().label;
    let path = tree.entered.last().path;
    let results = directory_results(node, label, depth);
    let streamed = node->streamed;
    let children = node->children;
    let listed = node->listed;
    let closing = node->closing;
    let events = directory_events(node, depth);
    if streamed is Err {
        let first = seq![reply(streamed, EventView::Opened)];
        cleanup_tree::lemma_run_concat(tree, first, closing_events(closing));
        lemma_one_event(tree, first[0]);
        let stopped = cleanup_tree::next(tree, first[0]);
        lemma_one_result(tree.failures, label, streamed);
        assert(results.drop_last() =~= seq![(label, streamed)]);
        lemma_closing(stopped, closing);
        assert(cleanup_tree::removals(tree, events) =~= directory_removals(node, path, depth));
    } else {
        let body = seq![EventView::Opened] + children_events(children, depth) + seq![
            reply(listed, EventView::End),
        ];
        let all = children_results(children, depth) + seq![(label, listed)];
        lemma_listing(tree, children, listed, depth);
        let stopped = having_recorded(tree, all, PhaseView::StatOpened);
        assert(results.drop_last() =~= all);
        lemma_closing(stopped, closing);
        cleanup_tree::lemma_run_concat(tree, body, closing_events(closing));
    }
}

/// An entry is dealt with, and the entries after it come next.
proof fn lemma_node(tree: TreeView, node: Node)
    requires
        tree.phase is OpenEntry,
        1 <= tree.entered.len() <= cleanup_tree::MAX_DEPTH,
    ensures
        ({
            let entry = tree.phase->OpenEntry_0;
            let depth = tree.entered.len() as int;
            &&& cleanup_tree::run(tree, node_events(node, depth)) == having_recorded(
                tree,
                node_results(node, entry.label, depth),
                PhaseView::ReadEntry,
            )
            &&& cleanup_tree::removals(tree, node_events(node, depth)) == node_removals(
                node,
                entry.path,
                depth,
            )
        }),
    decreases node, 1int,
{
    let entry = tree.phase->OpenEntry_0;
    let depth = tree.entered.len() as int;
    let events = node_events(node, depth);
    match node {
        Node::Unopened { error, unlinked } => {
            if cleanup_tree::is_not_directory(error) {
                let second = cleanup_tree::next(tree, events[0]);
                assert(events =~= seq![events[0]] + seq![events[1]]);
                cleanup_tree::lemma_run_concat(tree, seq![events[0]], seq![events[1]]);
                lemma_one_event(tree, events[0]);
                lemma_one_event(second, events[1]);
                lemma_one_result(tree.failures, entry.label, unlinked);
                assert(cleanup_tree::removals(tree, events) =~= node_removals(
                    node,
                    entry.path,
                    depth,
                ));
            } else {
                lemma_one_event(tree, events[0]);
                lemma_one_result(tree.failures, entry.label, Err(error));
            }
        },
        Node::Directory { streamed, children, listed, closing } => {
            let entered = cleanup_tree::next(tree, EventView::Opened);
            let inside = directory_events(node, depth);
            let results = directory_results(node, entry.label, depth);
            cleanup_tree::lemma_run_concat(tree, seq![EventView::Opened], inside);
            lemma_one_event(tree, EventView::Opened);
            assert(entered.entered.drop_last() =~= tree.entered);
            assert(entered.entered.last() == entry);
            if depth >= cleanup_tree::MAX_DEPTH {
                let nesting: Result<(), IoErrorView> = Err(
                    failures::other_error("Directory nesting exceeds cleanup limit"@),
                );
                lemma_one_result(tree.failures, entry.label, nesting);
                assert(results.drop_last() =~= seq![(entry.label, nesting)]);
                lemma_closing(entered, closing);
            } else {
                lemma_directory(entered, node, depth);
            }
            assert(failures::recorded_all(tree.failures, results) == failures::recorded(
                failures::recorded_all(tree.failures, results.drop_last()),
                entry.label,
                closing_result(closing),
            ));
            assert(cleanup_tree::removals(tree, events) =~= node_removals(
                node,
                entry.path,
                depth,
            ));
        },
    }
}

/// The root is opened and found to be the expected one.
proof fn lemma_opening(start: TreeView)
    requires
        start.phase is OpenParent,
    ensures
        ({
            let events = seq![
                EventView::Opened,
                EventView::Opened,
                EventView::Identity(start.expected),
            ];
            &&& cleanup_tree::run(start, events) == cleanup_tree::in_phase(
                start,
                PhaseView::OpenStream,
            )
            &&& cleanup_tree::removals(start, events) == Seq::<Seq<u8>>::empty()
        }),
{
    let known = EventView::Identity(start.expected);
    let events = seq![EventView::Opened, EventView::Opened, known];
    let second = cleanup_tree::in_phase(start, PhaseView::OpenRoot);
    let third = cleanup_tree::in_phase(start, PhaseView::CheckRoot);
    assert(events =~= seq![EventView::Opened] + (seq![EventView::Opened] + seq![known]));
    cleanup_tree::lemma_run_concat(
        start,
        seq![EventView::Opened],
        seq![EventView::Opened] + seq![known],
    );
    cleanup_tree::lemma_run_concat(second, seq![EventView::Opened], seq![known]);
    lemma_one_event(start, EventView::Opened);
    lemma_one_event(second, EventView::Opened);
    lemma_one_event(third, known);
    assert(seq![] + (seq![] + seq![]) =~= Seq::<Seq<u8>>::empty());
}

/// A whole tree is deleted as far as possible: whatever fails in it, every entry
/// that is not nested too deeply is dealt with once, the entries of a directory
/// before the directory itself, and the outcome is what all of the failures
/// together amount to.
pub proof fn lemma_the_whole_tree_is_dealt_with(
    path: Seq<u8>,
    label: Seq<char>,
    expected: DirectoryIdentity,
    root: Node,
)
    requires
        fs_path::parent(path) is Some,
        fs_path::file_name(path) is Some,
        root is Directory,
    ensures
        ({
            let start = cleanup_tree::begin(path, label, expected);
            let events = seq![EventView::Opened, EventView::Opened, EventView::Identity(expected)]
                + directory_events(root, 0);
            &&& cleanup_tree::run(start, events).phase == PhaseView::Finished(
                failures::finished(
                    failures::recorded_all(
                        failures::no_failures(),
                        directory_results(root, label, 0),
                    ),
                ),
            )
            &&& cleanup_tree::removals(start, events) == directory_removals(root, path, 0)
        }),
{
    let start = cleanup_tree::begin(path, label, expected);
    let opening = seq![EventView::Opened, EventView::Opened, EventView::Identity(expected)];
    let inside = directory_events(root, 0);
    let cleared = cleanup_tree::in_phase(start, PhaseView::OpenStream);
    cleanup_tree::lemma_run_concat(start, opening, inside);
    lemma_opening(start);
    lemma_directory(cleared, root, 0);
    let results = directory_results(root, label, 0);
    assert(failures::recorded_all(failures::no_failures(), results) == failures::recorded(
        failures::recorded_all(failures::no_failures(), results.drop_last()),
        label,
        closing_result(root->closing),
    ));
    assert(seq![] + directory_removals(root, path, 0) =~= directory_removals(root, path, 0));
}

/// The deletion of a tree succeeds if and only if nothing in it fails but on what
/// is already gone, and otherwise fails with the kind of the first permanent
/// failure.
pub proof fn lemma_deletion_succeeds_unless_something_fails(
    path: Seq<u8>,
    label: Seq<char>,
    expected: DirectoryIdentity,
    root: Node,
)
    requires
        fs_path::parent(path) is Some,
        fs_path::file_name(path) is Some,
        root is Directory,
    ensures
        ({
            let start = cleanup_tree::begin(path, label, expected);
            let events = seq![EventView::Opened, EventView::Opened, EventView::Identity(expected)]
                + directory_events(root, 0);
            let results = directory_results(root, label, 0);
            match cleanup_tree::run(start, events).phase {
                PhaseView::Finished(Ok(_)) => failures::counted(results) == 0,
                PhaseView::Finished(Err(error)) => failures::counted(results) > 0 && error.kind
                    == (match failures::first_permanent_kind(results) {
                    Some(kind) => kind,
                    None => "DirectoryNotEmpty"@,
                }),
                _ => false,
            }
        }),
{
    lemma_the_whole_tree_is_dealt_with(path, label, expected, root);
    failures::lemma_failures_are_counted_and_not_masked(directory_results(root, label, 0));
}

/// Whether an entry at this depth is a directory that is nested too deeply, or
/// leads to one.
pub open spec fn nests_too_deeply(node: Node, depth: int) -> bool
    decreases node, 0int,
{
    match node {
        Node::Directory { streamed, children, .. } => depth >= cleanup_tree::MAX_DEPTH || (
        streamed is Ok && children_nest_too_deeply(children, depth)),
        _ => false,
    }
}

/// Whether an entry of a directory at this depth leads to one that is nested too
/// deeply.
pub open spec fn children_nest_too_deeply(children: Seq<Child>, depth: int) -> bool
    decreases children, 0int,
{
    if children.len() == 0 {
        false
    } else {
        let last = children[children.len() - 1];
        children_nest_too_deeply(children.drop_last(), depth) || (!cleanup_tree::is_dot(last.name)
            && nests_too_deeply(last.node, depth + 1))
    }
}

proof fn lemma_deep_nesting_is_counted(node: Node, label: Seq<char>, depth: int)
    requires
        nests_too_deeply(node, depth),
    ensures
        failures::counted(directory_results(node, label, depth)) > 0,
    decreases node, 0int,
{
    let results = directory_results(node, label, depth);
    let closed = (label, closing_result(node->closing));
    if depth >= cleanup_tree::MAX_DEPTH {
        reveal_strlit("Other");
        reveal_strlit("NotFound");
        assert("Other"@.len() == 5 && "NotFound"@.len() == 8);
        let nesting: Result<(), IoErrorView> = Err(
            failures::other_error("Directory nesting exceeds cleanup limit"@),
        );
        assert(results =~= seq![].push((label, nesting)).push(closed));
        assert(results.drop_last() =~= seq![].push((label, nesting)));
        assert(failures::is_counted(results.drop_last().last().1));
        assert(failures::counted(results.drop_last()) > 0);
    } else {
        lemma_deep_nesting_in_children_is_counted(node->children, depth);
        failures::lemma_counted_concat(
            children_results(node->children, depth),
            seq![(label, node->listed), closed],
        );
    }
}

proof fn lemma_deep_nesting_in_children_is_counted(children: Seq<Child>, depth: int)
    requires
        children_nest_too_deeply(children, depth),
    ensures
        failures::counted(children_results(children, depth)) > 0,
    decreases children, 0int,
{
    let last = children[children.len() - 1];
    let before = children.drop_last();
    let own = if cleanup_tree::is_dot(last.name) {
        seq![]
    } else {
        node_results(last.node, last.label, depth + 1)
    };
    failures::lemma_counted_concat(children_results(before, depth), own);
    if children_nest_too_deeply(before, depth) {
        lemma_deep_nesting_in_children_is_counted(before, depth);
    } else {
        lemma_deep_nesting_is_counted(last.node, last.label, depth + 1);
    }
}

/// Of a directory that is nested too deeply, nothing is removed but, at most, the
/// directory itself.
pub proof fn lemma_too_deep_directories_are_not_cleared(
    directory: Node,
    path: Seq<u8>,
    depth: int,
)
    requires
        directory is Directory,
        depth >= cleanup_tree::MAX_DEPTH,
    ensures
        node_removals(directory, path, depth) == closing_removals(directory->closing, path),
{
}

/// The deletion of a tree that is nested too deeply fails, whatever else comes of it.
pub proof fn lemma_deep_nesting_fails_the_deletion(
    path: Seq<u8>,
    label: Seq<char>,
    expected: DirectoryIdentity,
    root: Node,
)
    requires
        fs_path::parent(path) is Some,
        fs_path::file_name(path) is Some,
        root is Directory,
        nests_too_deeply(root, 0),
    ensures
        ({
            let start = cleanup_tree::begin(path, label, expected);
            let events = seq![EventView::Opened, EventView::Opened, EventView::Identity(expected)]
                + directory_events(root, 0);
            cleanup_tree::run(start, events).phase matches PhaseView::Finished(Err(_))
        }),
{
    lemma_deletion_succeeds_unless_something_fails(path, label, expected, root);
    lemma_deep_nesting_is_counted(root, label, 0);
}

/// A tree that is not there counts as deleted, whether it or the directory around
/// it is missing, and nothing is removed.
pub proof fn lemma_an_absent_tree_counts_as_deleted(
    path: Seq<u8>,
    label: Seq<char>,
    expected: DirectoryIdentity,
    error: IoErrorView,
)
    requires
        cleanup_tree::is_missing(error),
        fs_path::parent(path) is Some,
        fs_path::file_name(path) is Some,
    ensures
        ({
            let start = cleanup_tree::begin(path, label, expected);
            let nowhere = seq![EventView::Failed(error)];
            let gone = seq![EventView::Opened, EventView::Failed(error)];
            &&& cleanup_tree::run(start, nowhere).phase == PhaseView::Finished(Ok(()))
            &&& cleanup_tree::removals(start, nowhere) == Seq::<Seq<u8>>::empty()
            &&& cleanup_tree::run(start, gone).phase == PhaseView::Finished(Ok(()))
            &&& cleanup_tree::removals(start, gone) == Seq::<Seq<u8>>::empty()
        }),
{
    let start = cleanup_tree::begin(path, label, expected);
    let second = cleanup_tree::in_phase(start, PhaseView::OpenRoot);
    lemma_one_event(start, EventView::Failed(error));
    lemma_one_event(start, EventView::Opened);
    lemma_one_event(second, EventView::Failed(error));
    cleanup_tree::lemma_run_concat(start, seq![EventView::Opened], seq![EventView::Failed(error)]);
    assert(seq![EventView::Opened] + seq![EventView::Failed(error)] =~= seq![
        EventView::Opened,
        EventView::Failed(error),
    ]);
}

/// If another directory stands in place of the expected one, it is left as it is,
/// and the deletion fails.
pub proof fn lemma_another_directory_is_left_alone(
    path: Seq<u8>,
    label: Seq<char>,
    expected: DirectoryIdentity,
    found: DirectoryIdentity,
)
    requires
        fs_path::parent(path) is Some,
        fs_path::file_name(path) is Some,
        found != expected,
    ensures
        ({
            let start = cleanup_tree::begin(path, label, expected);
            let events = seq![EventView::Opened, EventView::Opened, EventView::Identity(found)];
            &&& cleanup_tree::run(start, events).phase == PhaseView::Finished(
                Err(
                    failures::other_error("Quarantined worktree identity changed before deletion"@),
                ),
            )
            &&& cleanup_tree::removals(start, events) == Seq::<Seq<u8>>::empty()
        }),
{
    let start = cleanup_tree::begin(path, label, expected);
    let second = cleanup_tree::in_phase(start, PhaseView::OpenRoot);
    let third = cleanup_tree::in_phase(start, PhaseView::CheckRoot);
    let opened = seq![EventView::Opened];
    let other = seq![EventView::Identity(found)];
    lemma_one_event(start, EventView::Opened);
    lemma_one_event(second, EventView::Opened);
    lemma_one_event(third, EventView::Identity(found));
    cleanup_tree::lemma_run_concat(start, opened, opened + other);
    cleanup_tree::lemma_run_concat(second, opened, other);
    assert(opened + (opened + other) =~= seq![
        EventView::Opened,
        EventView::Opened,
        EventView::Identity(found),
    ]);
}

} // verus!
