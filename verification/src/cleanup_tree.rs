//! Recursive deletion that continues after individual failures.
//!
//! The deletion asks for one file operation at a time and is told what came of
//! it. Every operation is relative to a directory that the driver holds open:
//! the directory that contains the tree, or one of the directories entered so
//! far. Paths serve as diagnostic labels only.

use crate::failures;
use crate::failures::{Failures, FailuresView, IoError, IoErrorView};
use crate::fs_path;
use crate::fs_path::FsPath;
use vstd::prelude::*;

verus! {

broadcast use vstd::string::group_string_axioms;

/// How deep directories may be nested below the root of the tree.
pub const MAX_DEPTH: usize = 64;

/// What tells a directory from any other.
#[derive(Clone, Copy, PartialEq, Eq, Structural, Debug)]
pub struct DirectoryIdentity {
    pub device: u64,
    pub inode: u64,
}

/// An entry of a directory.
pub struct TreeEntry {
    pub name: Vec<u8>,
    pub path: FsPath,
    pub label: String,
}

/// What an entry holds.
pub struct EntryView {
    pub name: Seq<u8>,
    pub path: Seq<u8>,
    pub label: Seq<char>,
}

impl View for TreeEntry {
    type V = EntryView;

    open spec fn view(&self) -> EntryView {
        EntryView { name: self.name@, path: self.path@, label: self.label@ }
    }
}

/// The operation that a deletion waits for.
pub enum Phase {
    /// Open the directory that contains the tree.
    OpenParent,
    /// Open the root of the tree in it.
    OpenRoot,
    /// Identify the opened root.
    CheckRoot,
    /// Open a stream of the entries of the innermost directory.
    OpenStream,
    /// Read the next entry of the innermost directory.
    ReadEntry,
    /// Open an entry of the innermost directory as a directory.
    OpenEntry(TreeEntry),
    /// Unlink an entry of the innermost directory that is none itself.
    UnlinkEntry(TreeEntry),
    /// Identify the innermost directory by its handle.
    StatOpened,
    /// Identify it by its name in the directory around it.
    StatCurrent(DirectoryIdentity),
    /// Remove it from the directory around it.
    RemoveDirectory,
    /// Nothing is left to do.
    Finished(Result<(), IoError>),
}

/// What a phase holds.
pub enum PhaseView {
    OpenParent,
    OpenRoot,
    CheckRoot,
    OpenStream,
    ReadEntry,
    OpenEntry(EntryView),
    UnlinkEntry(EntryView),
    StatOpened,
    StatCurrent(DirectoryIdentity),
    RemoveDirectory,
    Finished(Result<(), IoErrorView>),
}

impl View for Phase {
    type V = PhaseView;

    open spec fn view(&self) -> PhaseView {
        match *self {
            Phase::OpenParent => PhaseView::OpenParent,
            Phase::OpenRoot => PhaseView::OpenRoot,
            Phase::CheckRoot => PhaseView::CheckRoot,
            Phase::OpenStream => PhaseView::OpenStream,
            Phase::ReadEntry => PhaseView::ReadEntry,
            Phase::OpenEntry(entry) => PhaseView::OpenEntry(entry@),
            Phase::UnlinkEntry(entry) => PhaseView::UnlinkEntry(entry@),
            Phase::StatOpened => PhaseView::StatOpened,
            Phase::StatCurrent(identity) => PhaseView::StatCurrent(identity),
            Phase::RemoveDirectory => PhaseView::RemoveDirectory,
            Phase::Finished(result) => PhaseView::Finished(failures::outcome_view(result)),
        }
    }
}

/// What came of an operation.
pub enum TreeEvent {
    /// The directory or stream was opened.
    Opened,
    /// The directory was identified.
    Identity(DirectoryIdentity),
    /// An entry was read; the label is how its path prints.
    Entry { name: Vec<u8>, label: String },
    /// There are no more entries.
    End,
    /// The entry was removed.
    Removed,
    /// The operation failed.
    Failed(IoError),
}

/// What an event holds.
pub enum EventView {
    Opened,
    Identity(DirectoryIdentity),
    Entry { name: Seq<u8>, label: Seq<char> },
    End,
    Removed,
    Failed(IoErrorView),
}

impl View for TreeEvent {
    type V = EventView;

    open spec fn view(&self) -> EventView {
        match *self {
            TreeEvent::Opened => EventView::Opened,
            TreeEvent::Identity(identity) => EventView::Identity(identity),
            TreeEvent::Entry { name, label } => EventView::Entry { name: name@, label: label@ },
            TreeEvent::End => EventView::End,
            TreeEvent::Removed => EventView::Removed,
            TreeEvent::Failed(error) => EventView::Failed(error@),
        }
    }
}

/// Which events can answer a phase.
pub open spec fn answers(event: EventView, phase: PhaseView) -> bool {
    match phase {
        PhaseView::OpenParent => event is Opened || event is Failed,
        PhaseView::OpenRoot => event is Opened || event is Failed,
        PhaseView::CheckRoot => event is Identity || event is Failed,
        PhaseView::OpenStream => event is Opened || event is Failed,
        PhaseView::ReadEntry => event is Entry || event is End || event is Failed,
        PhaseView::OpenEntry(_) => event is Opened || event is Failed,
        PhaseView::UnlinkEntry(_) => event is Removed || event is Failed,
        PhaseView::StatOpened => event is Identity || event is Failed,
        PhaseView::StatCurrent(_) => event is Identity || event is Failed,
        PhaseView::RemoveDirectory => event is Removed || event is Failed,
        PhaseView::Finished(_) => false,
    }
}

/// A recursive deletion in progress.
pub struct TreeRemoval {
    parent: FsPath,
    expected: DirectoryIdentity,
    /// The directories entered so far, from the root of the tree inwards.
    entered: Vec<TreeEntry>,
    failures: Failures,
    phase: Phase,
}

/// What a deletion in progress holds.
pub struct TreeView {
    pub parent: Seq<u8>,
    pub expected: DirectoryIdentity,
    pub entered: Seq<EntryView>,
    pub failures: FailuresView,
    pub phase: PhaseView,
}

/// What a list of entries holds.
pub open spec fn entry_list(entries: Seq<TreeEntry>) -> Seq<EntryView> {
    entries.map_values(|entry: TreeEntry| entry@)
}

impl View for TreeRemoval {
    type V = TreeView;

    closed spec fn view(&self) -> TreeView {
        TreeView {
            parent: self.parent@,
            expected: self.expected,
            entered: entry_list(self.entered@),
            failures: self.failures@,
            phase: self.phase@,
        }
    }
}

/// The entries that every directory has for itself and its parent.
pub open spec fn is_dot(name: Seq<u8>) -> bool {
    name == seq![0x2eu8] || name == seq![0x2eu8, 0x2eu8]
}

/// What holds of a deletion at all times: no directory that was entered and no
/// entry that is dealt with is a dot entry, nesting stays within the limit, and
/// there is a directory to work in until the deletion is finished.
pub open spec fn is_valid(tree: TreeView) -> bool {
    &&& tree.entered.len() <= MAX_DEPTH + 1
    &&& tree.phase is Finished || tree.entered.len() > 0
    &&& forall|i: int| 0 <= i < tree.entered.len() ==> !is_dot((#[trigger] tree.entered[i]).name)
    &&& match tree.phase {
        PhaseView::OpenEntry(entry) => !is_dot(entry.name) && tree.entered.len() <= MAX_DEPTH,
        PhaseView::UnlinkEntry(entry) => !is_dot(entry.name) && tree.entered.len() <= MAX_DEPTH,
        PhaseView::OpenStream => tree.entered.len() <= MAX_DEPTH,
        PhaseView::ReadEntry => tree.entered.len() <= MAX_DEPTH,
        PhaseView::OpenParent => tree.entered.len() == 1,
        PhaseView::OpenRoot => tree.entered.len() == 1,
        PhaseView::CheckRoot => tree.entered.len() == 1,
        _ => true,
    }
}

/// Whether opening a directory failed because there is nothing of that name.
pub open spec fn is_missing(error: IoErrorView) -> bool {
    error.kind == "NotFound"@
}

/// Whether opening an entry as a directory failed because it is none: it is a file,
/// or a symbolic link, which is not followed.
pub open spec fn is_not_directory(error: IoErrorView) -> bool {
    error.kind == "NotADirectory"@ || error.kind == "FilesystemLoop"@
}

/// How a deletion begins.
pub open spec fn begin(path: Seq<u8>, label: Seq<char>, expected: DirectoryIdentity) -> TreeView {
    match (fs_path::parent(path), fs_path::file_name(path)) {
        (None, _) => TreeView {
            parent: seq![],
            expected,
            entered: seq![],
            failures: failures::no_failures(),
            phase: PhaseView::Finished(Err(failures::other_error("Missing quarantine parent"@))),
        },
        (_, None) => TreeView {
            parent: seq![],
            expected,
            entered: seq![],
            failures: failures::no_failures(),
            phase: PhaseView::Finished(Err(failures::other_error("Missing quarantine filename"@))),
        },
        (Some(parent), Some(name)) => TreeView {
            parent,
            expected,
            entered: seq![EntryView { name, path, label }],
            failures: failures::no_failures(),
            phase: PhaseView::OpenParent,
        },
    }
}

/// The outcome if the tree, or the directory around it, cannot be opened: there is
/// nothing to do if it is not there.
pub open spec fn unopened(error: IoErrorView) -> Result<(), IoErrorView> {
    if is_missing(error) {
        Ok(())
    } else {
        Err(error)
    }
}

/// The deletion in another phase.
pub open spec fn in_phase(tree: TreeView, phase: PhaseView) -> TreeView {
    TreeView { phase, ..tree }
}

/// The deletion with one more result recorded, in another phase.
pub open spec fn recording(
    tree: TreeView,
    label: Seq<char>,
    result: Result<(), IoErrorView>,
    phase: PhaseView,
) -> TreeView {
    TreeView { failures: failures::recorded(tree.failures, label, result), phase, ..tree }
}

/// The deletion once the innermost directory was dealt with: back to the
/// directory around it, or finished with the root and with what the failures
/// amount to.
pub open spec fn leaving(tree: TreeView, result: Result<(), IoErrorView>) -> TreeView {
    let failures = failures::recorded(tree.failures, tree.entered.last().label, result);
    let entered = tree.entered.drop_last();
    if entered.len() == 0 {
        TreeView {
            entered,
            failures: failures::no_failures(),
            phase: PhaseView::Finished(failures::finished(failures)),
            ..tree
        }
    } else {
        TreeView { entered, failures, phase: PhaseView::ReadEntry, ..tree }
    }
}

/// The deletion once a directory was entered. One that is nested too deeply is
/// reported and left as it is; its entries are not touched.
pub open spec fn entering(tree: TreeView, entry: EntryView) -> TreeView {
    let deeper = TreeView { entered: tree.entered.push(entry), ..tree };
    if tree.entered.len() >= MAX_DEPTH {
        recording(
            deeper,
            entry.label,
            Err(failures::other_error("Directory nesting exceeds cleanup limit"@)),
            PhaseView::StatOpened,
        )
    } else {
        in_phase(deeper, PhaseView::OpenStream)
    }
}

/// The entry of this name in the innermost directory.
pub open spec fn child(tree: TreeView, name: Seq<u8>, label: Seq<char>) -> EntryView {
    EntryView { name, path: fs_path::join(tree.entered.last().path, name), label }
}

/// The deletion once an operation was answered.
pub open spec fn next(tree: TreeView, event: EventView) -> TreeView {
    match (tree.phase, event) {
        // The tree counts as deleted if it is not there. Nothing is touched before the
        // root is known to be the expected one.
        (PhaseView::OpenParent, EventView::Failed(error)) => in_phase(
            tree,
            PhaseView::Finished(unopened(error)),
        ),
        (PhaseView::OpenRoot, EventView::Failed(error)) => in_phase(
            tree,
            PhaseView::Finished(unopened(error)),
        ),
        (PhaseView::CheckRoot, EventView::Failed(error)) => in_phase(
            tree,
            PhaseView::Finished(Err(error)),
        ),
        (PhaseView::OpenParent, _) => in_phase(tree, PhaseView::OpenRoot),
        (PhaseView::OpenRoot, _) => in_phase(tree, PhaseView::CheckRoot),
        (PhaseView::CheckRoot, EventView::Identity(identity)) => if identity == tree.expected {
            in_phase(tree, PhaseView::OpenStream)
        } else {
            in_phase(
                tree,
                PhaseView::Finished(
                    Err(
                        failures::other_error(
                            "Quarantined worktree identity changed before deletion"@,
                        ),
                    ),
                ),
            )
        },
        // From here on a failure is recorded, and the deletion goes on.
        (PhaseView::OpenStream, EventView::Failed(error)) => recording(
            tree,
            tree.entered.last().label,
            Err(error),
            PhaseView::StatOpened,
        ),
        (PhaseView::OpenStream, _) => in_phase(tree, PhaseView::ReadEntry),
        (PhaseView::ReadEntry, EventView::Entry { name, label }) => if is_dot(name) {
            tree
        } else {
            in_phase(tree, PhaseView::OpenEntry(child(tree, name, label)))
        },
        (PhaseView::ReadEntry, EventView::Failed(error)) => recording(
            tree,
            tree.entered.last().label,
            Err(error),
            PhaseView::StatOpened,
        ),
        (PhaseView::ReadEntry, _) => in_phase(tree, PhaseView::StatOpened),
        (PhaseView::OpenEntry(entry), EventView::Opened) => entering(tree, entry),
        (PhaseView::OpenEntry(entry), EventView::Failed(error)) => if is_not_directory(error) {
            in_phase(tree, PhaseView::UnlinkEntry(entry))
        } else {
            recording(tree, entry.label, Err(error), PhaseView::ReadEntry)
        },
        (PhaseView::UnlinkEntry(entry), EventView::Failed(error)) => recording(
            tree,
            entry.label,
            Err(error),
            PhaseView::ReadEntry,
        ),
        (PhaseView::UnlinkEntry(entry), _) => in_phase(tree, PhaseView::ReadEntry),
        (PhaseView::StatOpened, EventView::Identity(identity)) => in_phase(
            tree,
            PhaseView::StatCurrent(identity),
        ),
        (PhaseView::StatCurrent(opened), EventView::Identity(current)) => if opened == current {
            in_phase(tree, PhaseView::RemoveDirectory)
        } else {
            leaving(
                tree,
                Err(failures::other_error("Directory identity changed before removal"@)),
            )
        },
        (PhaseView::RemoveDirectory, EventView::Removed) => leaving(tree, Ok(())),
        (_, EventView::Failed(error)) => leaving(tree, Err(error)),
        _ => tree,
    }
}

impl TreeRemoval {
    /// Begin to delete the tree at a path, provided that its root is the expected
    /// directory. The label is how the path prints.
    pub fn begin(path: &FsPath, label: &str, expected: DirectoryIdentity) -> (tree: TreeRemoval)
        ensures
            tree@ == begin(path@, label@, expected),
            is_valid(tree@),
    {
        let parent = match path.parent() {
            Some(parent) => parent,
            None => {
                return Self::refuse("Missing quarantine parent", expected);
            },
        };
        let name = match path.file_name() {
            Some(name) => name,
            None => {
                return Self::refuse("Missing quarantine filename", expected);
            },
        };
        proof {
            fs_path::lemma_file_name_is_segment(path@);
        }
        let mut entered: Vec<TreeEntry> = Vec::new();
        entered.push(TreeEntry { name, path: path.clone(), label: label.to_owned() });
        assert(entry_list(entered@) =~= begin(path@, label@, expected).entered);
        TreeRemoval {
            parent,
            expected,
            entered,
            failures: Failures::default(),
            phase: Phase::OpenParent,
        }
    }

    fn refuse(message: &str, expected: DirectoryIdentity) -> (tree: TreeRemoval)
        ensures
            tree@ == (TreeView {
                parent: seq![],
                expected,
                entered: seq![],
                failures: failures::no_failures(),
                phase: PhaseView::Finished(Err(failures::other_error(message@))),
            }),
    {
        let bytes: Vec<u8> = Vec::new();
        let entered: Vec<TreeEntry> = Vec::new();
        assert(bytes@ =~= seq![]);
        assert(entry_list(entered@) =~= seq![]);
        TreeRemoval {
            parent: FsPath::new(bytes),
            expected,
            entered,
            failures: Failures::default(),
            phase: Phase::Finished(Err(IoError::other(message))),
        }
    }

    fn unopened(error: IoError) -> (result: Result<(), IoError>)
        ensures
            failures::outcome_view(result) == unopened(error@),
    {
        if error.kind.is("NotFound") {
            Ok(())
        } else {
            Err(error)
        }
    }

    /// The operation that is to be performed next.
    pub fn phase(&self) -> (phase: &Phase)
        ensures
            phase@ == self@.phase,
    {
        &self.phase
    }

    /// The path of the directory that contains the tree.
    pub fn parent_path(&self) -> (path: &FsPath)
        ensures
            path@ == self@.parent,
    {
        &self.parent
    }

    /// The name of the innermost directory in the directory around it.
    pub fn directory_name(&self) -> (name: &[u8])
        requires
            self@.entered.len() > 0,
        ensures
            name@ == self@.entered.last().name,
    {
        self.entered[self.entered.len() - 1].name.as_slice()
    }

    /// The path of the entry of this name in the innermost directory.
    pub fn entry_path(&self, name: &FsPath) -> (path: FsPath)
        requires
            self@.entered.len() > 0,
        ensures
            path@ == fs_path::join(self@.entered.last().path, name@),
    {
        self.entered[self.entered.len() - 1].path.join(name)
    }

    /// The label of the innermost directory.
    fn directory_label(&self) -> (label: String)
        requires
            self.entered@.len() > 0,
        ensures
            label@ == self@.entered.last().label,
    {
        self.entered[self.entered.len() - 1].label.clone()
    }

    fn in_phase(self, phase: Phase) -> (tree: TreeRemoval)
        ensures
            tree@ == in_phase(self@, phase@),
    {
        TreeRemoval { phase, ..self }
    }

    fn recording(self, label: &str, error: IoError, phase: Phase) -> (tree: TreeRemoval)
        requires
            self@.failures.count < usize::MAX,
        ensures
            tree@ == recording(self@, label@, Err(error@), phase@),
    {
        let mut failures = self.failures;
        failures.record(label, Err(error));
        TreeRemoval {
            parent: self.parent,
            expected: self.expected,
            entered: self.entered,
            failures,
            phase,
        }
    }

    fn leaving(self, result: Result<(), IoError>) -> (tree: TreeRemoval)
        requires
            self@.failures.count < usize::MAX,
            self@.entered.len() > 0,
        ensures
            tree@ == leaving(self@, failures::outcome_view(result)),
    {
        let mut entered = self.entered;
        let mut failures = self.failures;
        let ghost all = entry_list(entered@);
        let last: usize = entered.len() - 1;
        let directory = entered.remove(last);
        failures.record(directory.label.as_str(), result);
        assert(entry_list(entered@) =~= all.drop_last());
        if entered.len() == 0 {
            TreeRemoval {
                parent: self.parent,
                expected: self.expected,
                entered,
                failures: Failures::default(),
                phase: Phase::Finished(failures.finish()),
            }
        } else {
            TreeRemoval {
                parent: self.parent,
                expected: self.expected,
                entered,
                failures,
                phase: Phase::ReadEntry,
            }
        }
    }

    fn entering(self, entry: TreeEntry) -> (tree: TreeRemoval)
        requires
            self@.failures.count < usize::MAX,
        ensures
            tree@ == entering(self@, entry@),
    {
        let label = entry.label.clone();
        let too_deep = self.entered.len() >= MAX_DEPTH;
        let ghost before = entry_list(self.entered@);
        let mut entered = self.entered;
        entered.push(entry);
        assert(entry_list(entered@) =~= before.push(entry@));
        let deeper = TreeRemoval {
            parent: self.parent,
            expected: self.expected,
            entered,
            failures: self.failures,
            phase: self.phase,
        };
        if too_deep {
            deeper.recording(
                label.as_str(),
                IoError::other("Directory nesting exceeds cleanup limit"),
                Phase::StatOpened,
            )
        } else {
            deeper.in_phase(Phase::OpenStream)
        }
    }
}

/// Whether a name is that of a dot entry.
fn is_dot_name(name: &Vec<u8>) -> (dot: bool)
    ensures
        dot == is_dot(name@),
{
    proof {
        if name@.len() == 1 && name@[0] == 0x2e {
            assert(name@ =~= seq![0x2eu8]);
        }
        if name@.len() == 2 && name@[0] == 0x2e && name@[1] == 0x2e {
            assert(name@ =~= seq![0x2eu8, 0x2eu8]);
        }
    }
    (name.len() == 1 && name[0] == 0x2e) || (name.len() == 2 && name[0] == 0x2e && name[1] == 0x2e)
}

impl TreeRemoval {
    /// Go on, knowing what came of the operation.
    pub fn answer(self, event: TreeEvent) -> (tree: TreeRemoval)
        requires
            is_valid(self@),
            answers(event@, self@.phase),
            self@.failures.count < usize::MAX,
        ensures
            tree@ == next(self@, event@),
            is_valid(tree@),
    {
        proof {
            lemma_next_is_valid(self@, event@);
        }
        let TreeRemoval { parent, expected, entered, failures, phase } = self;
        let tree = TreeRemoval { parent, expected, entered, failures, phase: Phase::ReadEntry };
        match phase {
            Phase::OpenParent => match event {
                TreeEvent::Failed(error) => tree.in_phase(Phase::Finished(Self::unopened(error))),
                _ => tree.in_phase(Phase::OpenRoot),
            },
            Phase::OpenRoot => match event {
                TreeEvent::Failed(error) => tree.in_phase(Phase::Finished(Self::unopened(error))),
                _ => tree.in_phase(Phase::CheckRoot),
            },
            Phase::CheckRoot => match event {
                TreeEvent::Failed(error) => tree.in_phase(Phase::Finished(Err(error))),
                TreeEvent::Identity(identity) => {
                    if identity == expected {
                        tree.in_phase(Phase::OpenStream)
                    } else {
                        tree.in_phase(
                            Phase::Finished(
                                Err(
                                    IoError::other(
                                        "Quarantined worktree identity changed before deletion",
                                    ),
                                ),
                            ),
                        )
                    }
                },
                _ => tree,
            },
            Phase::OpenStream => match event {
                TreeEvent::Failed(error) => {
                    let label = tree.directory_label();
                    tree.recording(label.as_str(), error, Phase::StatOpened)
                },
                _ => tree.in_phase(Phase::ReadEntry),
            },
            Phase::ReadEntry => match event {
                TreeEvent::Entry { name, label } => {
                    if is_dot_name(&name) {
                        tree
                    } else {
                        let name_bytes = name.clone();
                        assert(name_bytes@ =~= name@);
                        let path = tree.entry_path(&FsPath::new(name_bytes));
                        tree.in_phase(Phase::OpenEntry(TreeEntry { name, path, label }))
                    }
                },
                TreeEvent::Failed(error) => {
                    let label = tree.directory_label();
                    tree.recording(label.as_str(), error, Phase::StatOpened)
                },
                _ => tree.in_phase(Phase::StatOpened),
            },
            Phase::OpenEntry(entry) => match event {
                TreeEvent::Opened => tree.entering(entry),
                TreeEvent::Failed(error) => {
                    if error.kind.is("NotADirectory") || error.kind.is("FilesystemLoop") {
                        tree.in_phase(Phase::UnlinkEntry(entry))
                    } else {
                        tree.recording(entry.label.as_str(), error, Phase::ReadEntry)
                    }
                },
                _ => tree,
            },
            Phase::UnlinkEntry(entry) => match event {
                TreeEvent::Failed(error) => tree.recording(
                    entry.label.as_str(),
                    error,
                    Phase::ReadEntry,
                ),
                _ => tree.in_phase(Phase::ReadEntry),
            },
            Phase::StatOpened => match event {
                TreeEvent::Identity(identity) => tree.in_phase(Phase::StatCurrent(identity)),
                TreeEvent::Failed(error) => tree.leaving(Err(error)),
                _ => tree,
            },
            Phase::StatCurrent(opened) => match event {
                TreeEvent::Identity(current) => {
                    if opened == current {
                        tree.in_phase(Phase::RemoveDirectory)
                    } else {
                        tree.leaving(
                            Err(IoError::other("Directory identity changed before removal")),
                        )
                    }
                },
                TreeEvent::Failed(error) => tree.leaving(Err(error)),
                _ => tree,
            },
            Phase::RemoveDirectory => match event {
                TreeEvent::Failed(error) => tree.leaving(Err(error)),
                _ => tree.leaving(Ok(())),
            },
            Phase::Finished(_) => tree,
        }
    }

    /// The outcome of a deletion that is finished; `None` before that.
    pub fn outcome(self) -> (outcome: Option<Result<(), IoError>>)
        ensures
            match self@.phase {
                PhaseView::Finished(result) => outcome matches Some(got) && failures::outcome_view(
                    got,
                ) == result,
                _ => outcome is None,
            },
    {
        match self.phase {
            Phase::Finished(result) => Some(result),
            _ => None,
        }
    }
}

/// Whatever comes of an operation, the deletion stays valid.
pub proof fn lemma_next_is_valid(tree: TreeView, event: EventView)
    requires
        is_valid(tree),
        answers(event, tree.phase),
    ensures
        is_valid(next(tree, event)),
{
}

/// The phases before the root of the tree is known to be the expected one.
pub open spec fn is_preliminary(phase: PhaseView) -> bool {
    phase is OpenParent || phase is OpenRoot || phase is CheckRoot
}

/// Nothing in the tree is touched unless its root was identified as the expected
/// directory.
pub proof fn lemma_only_the_expected_root_is_cleared(tree: TreeView, event: EventView)
    requires
        answers(event, tree.phase),
        is_preliminary(tree.phase),
        !is_preliminary(next(tree, event).phase),
        next(tree, event).phase !is Finished,
    ensures
        tree.phase is CheckRoot,
        event == EventView::Identity(tree.expected),
{
}

/// The expected identity of the root never changes.
pub proof fn lemma_expected_root_stays(tree: TreeView, event: EventView)
    requires
        answers(event, tree.phase),
    ensures
        next(tree, event).expected == tree.expected,
{
}

/// A directory is removed only if its name still leads to the directory that was
/// opened under it.
pub proof fn lemma_only_the_opened_directory_is_removed(tree: TreeView, event: EventView)
    requires
        answers(event, tree.phase),
        next(tree, event).phase is RemoveDirectory,
    ensures
        tree.phase matches PhaseView::StatCurrent(opened) && event == EventView::Identity(opened),
        next(tree, event).entered == tree.entered,
{
}

/// An entry is unlinked only if it turned out not to be a directory, so that what
/// a symbolic link leads to is never entered or removed.
pub proof fn lemma_only_non_directories_are_unlinked(tree: TreeView, event: EventView)
    requires
        answers(event, tree.phase),
        next(tree, event).phase is UnlinkEntry,
    ensures
        event matches EventView::Failed(error) && is_not_directory(error),
        tree.phase == PhaseView::OpenEntry(next(tree, event).phase->UnlinkEntry_0),
{
}

/// The failure of an entry is recorded, and the entries after it are read all the
/// same.
pub proof fn lemma_a_failed_entry_does_not_stop_its_siblings(tree: TreeView, event: EventView)
    requires
        tree.phase is OpenEntry || tree.phase is UnlinkEntry,
        event is Failed,
        tree.phase is OpenEntry ==> !is_not_directory(event->Failed_0),
    ensures
        next(tree, event).phase is ReadEntry,
        next(tree, event).entered == tree.entered,
        next(tree, event).failures == failures::recorded(
            tree.failures,
            match tree.phase {
                PhaseView::OpenEntry(entry) => entry.label,
                PhaseView::UnlinkEntry(entry) => entry.label,
                _ => seq![],
            },
            Err(event->Failed_0),
        ),
{
}

/// The deletion after a list of answers.
pub open spec fn run(tree: TreeView, events: Seq<EventView>) -> TreeView
    decreases events.len(),
{
    if events.len() == 0 {
        tree
    } else {
        run(next(tree, events[0]), events.drop_first())
    }
}

/// The path that a phase removes, if it removes one.
pub open spec fn removed_path(tree: TreeView) -> Seq<Seq<u8>> {
    match tree.phase {
        PhaseView::UnlinkEntry(entry) => seq![entry.path],
        PhaseView::RemoveDirectory => seq![tree.entered.last().path],
        _ => seq![],
    }
}

/// The paths that are asked to be removed over a list of answers.
pub open spec fn removals(tree: TreeView, events: Seq<EventView>) -> Seq<Seq<u8>>
    decreases events.len(),
{
    if events.len() == 0 {
        seq![]
    } else {
        removed_path(tree) + removals(next(tree, events[0]), events.drop_first())
    }
}

/// One list of answers and then another are both of them in a row.
pub proof fn lemma_run_concat(tree: TreeView, first: Seq<EventView>, second: Seq<EventView>)
    ensures
        run(tree, first + second) == run(run(tree, first), second),
        removals(tree, first + second) == removals(tree, first) + removals(
            run(tree, first),
            second,
        ),
    decreases first.len(),
{
    if first.len() == 0 {
        assert(first + second =~= second);
        assert(removals(tree, first) + removals(tree, second) =~= removals(tree, second));
    } else {
        assert((first + second).drop_first() =~= first.drop_first() + second);
        lemma_run_concat(next(tree, first[0]), first.drop_first(), second);
        assert(removals(tree, first + second) =~= removals(tree, first) + removals(
            run(tree, first),
            second,
        ));
    }
}

} // verus!
