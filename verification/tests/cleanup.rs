//! Deleting quarantined worktrees in a file system held in memory.

use workmux::cleanup_retry::{
    Attempted, Resumed, Retry, INITIAL_BACKOFF, MAX_BACKOFF, RETRY_TIMEOUT,
};
use workmux::cleanup_tree::{DirectoryIdentity, Phase, TreeEvent, TreeRemoval, MAX_DEPTH};
use workmux::failures::{ErrorKind, Failures, IoError, MAX_ERROR_BYTES};
use workmux::fs_path::FsPath;
use workmux::pending_cleanup::{
    CleanupError, PendingCleanup, PendingRemoval, Preparation, PrepareError,
};

const MILLISECOND: u128 = 1_000_000;

enum Content {
    Directory(Vec<(Vec<u8>, usize)>),
    File(String),
    Link(String),
}

/// A file system: every node has a number, and the root is number 0.
struct Disk {
    nodes: Vec<Content>,
    /// Names that cannot be opened or removed.
    protected: Vec<Vec<u8>>,
    /// Names that are replaced by another directory once they were opened.
    swapped: Vec<Vec<u8>>,
    /// Names in which a file appears just before they are removed.
    late: Vec<Vec<u8>>,
    removed: Vec<String>,
}

fn disk() -> Disk {
    Disk {
        nodes: vec![Content::Directory(vec![])],
        protected: vec![],
        swapped: vec![],
        late: vec![],
        removed: vec![],
    }
}

fn error(kind: &str, errno: i32, message: &str) -> IoError {
    IoError { kind: ErrorKind::named(kind), errno: Some(errno), message: message.to_string() }
}

impl Disk {
    fn entries(&self, node: usize) -> Option<&Vec<(Vec<u8>, usize)>> {
        match &self.nodes[node] {
            Content::Directory(entries) => Some(entries),
            _ => None,
        }
    }

    fn entry(&self, node: usize, name: &[u8]) -> Option<usize> {
        self.entries(node)?.iter().find(|(known, _)| known == name).map(|(_, at)| *at)
    }

    fn find(&self, path: &str) -> Option<usize> {
        let mut at = 0;
        for name in path.split('/').filter(|name| !name.is_empty()) {
            at = self.entry(at, name.as_bytes())?;
        }
        Some(at)
    }

    /// Why a node that is no directory cannot be opened as one.
    fn no_directory(&self, node: usize) -> IoError {
        match &self.nodes[node] {
            Content::Link(_) => error("FilesystemLoop", 40, "Too many levels of symbolic links"),
            _ => error("NotADirectory", 20, "Not a directory"),
        }
    }

    fn holds(&self, path: &str) -> bool {
        self.find(path).is_some()
    }

    fn attach(&mut self, directory: usize, name: &[u8], content: Content) -> usize {
        let node = self.nodes.len();
        self.nodes.push(content);
        match &mut self.nodes[directory] {
            Content::Directory(entries) => entries.push((name.to_vec(), node)),
            _ => panic!("not a directory"),
        }
        node
    }

    fn detach(&mut self, directory: usize, name: &[u8]) {
        match &mut self.nodes[directory] {
            Content::Directory(entries) => entries.retain(|(known, _)| known != name),
            _ => panic!("not a directory"),
        }
    }

    fn create_dir_all(&mut self, path: &str) -> usize {
        let mut at = 0;
        for name in path.split('/').filter(|name| !name.is_empty()) {
            at = match self.entry(at, name.as_bytes()) {
                Some(node) => node,
                None => self.attach(at, name.as_bytes(), Content::Directory(vec![])),
            };
        }
        at
    }

    fn make_directories(&mut self, path: &str) -> Result<(), IoError> {
        match self.find(path) {
            Some(node) if self.entries(node).is_none() => {
                Err(error("AlreadyExists", 17, "File exists (os error 17)"))
            }
            _ => {
                self.create_dir_all(path);
                Ok(())
            }
        }
    }

    fn put(&mut self, path: &str, content: Content) {
        let (directory, name) = path.rsplit_once('/').unwrap();
        let directory = self.create_dir_all(directory);
        self.attach(directory, name.as_bytes(), content);
    }

    fn write(&mut self, path: &str, text: &str) {
        self.put(path, Content::File(text.to_string()));
    }

    fn symlink(&mut self, target: &str, path: &str) {
        self.put(path, Content::Link(target.to_string()));
    }

    fn read(&self, path: &str) -> String {
        match &self.nodes[self.find(path).unwrap()] {
            Content::File(text) => text.clone(),
            _ => panic!("not a file"),
        }
    }

    fn rename(&mut self, from: &str, to: &str) {
        let node = self.find(from).unwrap();
        let (directory, name) = from.rsplit_once('/').unwrap();
        let directory = self.find(directory).unwrap();
        self.detach(directory, name.as_bytes());
        let (directory, name) = to.rsplit_once('/').unwrap();
        let directory = self.find(directory).unwrap();
        match &mut self.nodes[directory] {
            Content::Directory(entries) => entries.push((name.as_bytes().to_vec(), node)),
            _ => panic!("not a directory"),
        }
    }

    fn identity_of(&self, node: usize) -> DirectoryIdentity {
        DirectoryIdentity { device: 7, inode: node as u64 }
    }

    fn identity(&self, path: &str) -> DirectoryIdentity {
        self.identity_of(self.find(path).unwrap())
    }

    fn remove_file(&mut self, path: &FsPath) -> Result<(), IoError> {
        let text = path.to_text();
        if !self.holds(&text) {
            return Err(error("NotFound", 2, "No such file or directory (os error 2)"));
        }
        let (directory, name) = text.rsplit_once('/').unwrap();
        let directory = self.find(directory).unwrap();
        self.detach(directory, name.as_bytes());
        Ok(())
    }

    fn unlink(&mut self, directory: usize, name: &[u8], remove_directory: bool) -> TreeEvent {
        let node = match self.entry(directory, name) {
            Some(node) => node,
            None => {
                return TreeEvent::Failed(error("NotFound", 2, "No such file or directory"));
            }
        };
        if self.protected.iter().any(|known| known == name) {
            return TreeEvent::Failed(error("PermissionDenied", 13, "Permission denied"));
        }
        if remove_directory && self.late.iter().any(|known| known == name) {
            self.attach(node, b"late", Content::File(String::new()));
        }
        match self.entries(node) {
            Some(entries) if !entries.is_empty() => {
                return TreeEvent::Failed(error("DirectoryNotEmpty", 39, "Directory not empty"));
            }
            _ => {}
        }
        assert_eq!(self.entries(node).is_some(), remove_directory);
        self.detach(directory, name);
        self.removed.push(String::from_utf8_lossy(name).into_owned());
        TreeEvent::Removed
    }

    /// Delete a tree as the driver of a real file system would.
    fn remove(&mut self, path: &str, expected: DirectoryIdentity) -> Result<(), IoError> {
        let label = format!("{path:?}");
        let mut tree = TreeRemoval::begin(&FsPath::from_text(path), &label, expected);
        // The directories that are open: the one around the tree, then those entered.
        let mut open: Vec<usize> = vec![];
        let mut streams: Vec<Vec<Vec<u8>>> = vec![];
        loop {
            let event = match tree.phase() {
                Phase::OpenParent => match self.find(&tree.parent_path().to_text()) {
                    None => TreeEvent::Failed(error("NotFound", 2, "No such file")),
                    Some(node) if self.entries(node).is_none() => {
                        TreeEvent::Failed(error("NotADirectory", 20, "Not a directory"))
                    }
                    Some(node) => {
                        open.push(node);
                        TreeEvent::Opened
                    }
                },
                Phase::OpenRoot => match self.entry(open[0], tree.directory_name()) {
                    None => TreeEvent::Failed(error("NotFound", 2, "No such file")),
                    Some(node) if self.entries(node).is_none() => {
                        TreeEvent::Failed(self.no_directory(node))
                    }
                    Some(node) => {
                        open.push(node);
                        TreeEvent::Opened
                    }
                },
                Phase::CheckRoot => TreeEvent::Identity(self.identity_of(open[1])),
                Phase::OpenStream => {
                    let innermost = *open.last().unwrap();
                    let mut names = vec![b".".to_vec(), b"..".to_vec()];
                    for (name, _) in self.entries(innermost).unwrap() {
                        names.push(name.clone());
                    }
                    names.reverse();
                    streams.push(names);
                    TreeEvent::Opened
                }
                Phase::ReadEntry => match streams.last_mut().unwrap().pop() {
                    Some(name) => {
                        let path = tree.entry_path(&FsPath::new(name.clone()));
                        TreeEvent::Entry { name, label: format!("{:?}", path.to_text()) }
                    }
                    None => {
                        streams.pop();
                        TreeEvent::End
                    }
                },
                Phase::OpenEntry(entry) => {
                    let innermost = *open.last().unwrap();
                    match self.entry(innermost, &entry.name) {
                        None => TreeEvent::Failed(error("NotFound", 2, "No such file")),
                        Some(node) if self.entries(node).is_none() => {
                            TreeEvent::Failed(self.no_directory(node))
                        }
                        Some(_) if self.protected.contains(&entry.name) => {
                            TreeEvent::Failed(error("PermissionDenied", 13, "Permission denied"))
                        }
                        Some(node) => {
                            if self.swapped.contains(&entry.name) {
                                self.detach(innermost, &entry.name);
                                self.attach(innermost, &entry.name, Content::Directory(vec![]));
                            }
                            open.push(node);
                            TreeEvent::Opened
                        }
                    }
                }
                Phase::UnlinkEntry(entry) => {
                    let name = entry.name.clone();
                    self.unlink(*open.last().unwrap(), &name, false)
                }
                Phase::StatOpened => TreeEvent::Identity(self.identity_of(*open.last().unwrap())),
                Phase::StatCurrent(_) => {
                    match self.entry(open[open.len() - 2], tree.directory_name()) {
                        Some(node) => TreeEvent::Identity(self.identity_of(node)),
                        None => TreeEvent::Failed(error("NotFound", 2, "No such file")),
                    }
                }
                Phase::RemoveDirectory => {
                    let name = tree.directory_name().to_vec();
                    self.unlink(open[open.len() - 2], &name, true)
                }
                Phase::Finished(_) => break,
            };
            let leaving = match (tree.phase(), &event) {
                (Phase::RemoveDirectory, _) => true,
                (Phase::StatOpened, TreeEvent::Failed(_)) => true,
                (Phase::StatCurrent(_), TreeEvent::Failed(_)) => true,
                (Phase::StatCurrent(opened), TreeEvent::Identity(current)) => opened != current,
                _ => false,
            };
            tree = tree.answer(event);
            if leaving {
                open.pop();
            }
        }
        tree.outcome().unwrap()
    }
}

/// Store the record of a worktree as the driver of a real file system would.
fn persist(
    disk: &mut Disk,
    state: &str,
    original: &FsPath,
    trash: &str,
    identity: DirectoryIdentity,
) -> Result<PendingCleanup, PrepareError> {
    let preparation = PendingCleanup::prepare_in(
        &FsPath::from_text(state),
        original,
        FsPath::from_text(trash),
        identity,
    );
    let created = disk.make_directories(&preparation.directory().to_text());
    let writing = preparation.answer(created)?;
    let record = String::from_utf8(writing.record().to_vec()).unwrap();
    disk.write(&writing.record_path().to_text(), &record);
    writing.answer(Ok(()))
}

/// The pending cleanup and its record, if both file operations go well.
fn prepared(preparation: Preparation) -> (PendingCleanup, Vec<u8>) {
    let writing = preparation.answer(Ok(())).ok().unwrap();
    let record = writing.record().to_vec();
    (writing.answer(Ok(())).ok().unwrap(), record)
}

fn deletion_error(result: Result<(), IoError>) -> IoError {
    match result {
        Ok(()) => panic!("the tree was deleted"),
        Err(error) => error,
    }
}

fn of_kind(kind: &str) -> Result<(), IoError> {
    Err(IoError {
        kind: ErrorKind::named(kind),
        errno: None,
        message: "it failed".to_string(),
    })
}

/// Retry with a clock that only attempts and pauses move.
fn retry(
    timeout: u128,
    cost: u128,
    mut attempt: impl FnMut() -> Result<(), IoError>,
) -> (Result<(), IoError>, u128, Vec<u128>) {
    let mut clock: u128 = 0;
    let mut pauses = vec![];
    let mut retry = Retry::directory_not_empty(timeout);
    loop {
        let result = attempt();
        clock += cost;
        let error = match retry.after_attempt(result, clock) {
            Attempted::Finished(result) => return (result, clock, pauses),
            Attempted::Pause(error) => error,
        };
        let pause = retry.pause(clock);
        pauses.push(pause);
        clock += pause;
        retry = match retry.after_pause(error, clock) {
            Resumed::Finished(result) => return (result, clock, pauses),
            Resumed::Again(next) => next,
        };
    }
}

#[test]
fn retries_transient_nonempty_errors() {
    let mut attempts = 0;
    let (result, _, _) = retry(1000 * MILLISECOND, MILLISECOND, || {
        attempts += 1;
        if attempts < 3 {
            of_kind("DirectoryNotEmpty")
        } else {
            Ok(())
        }
    });
    assert!(result.is_ok());
    assert_eq!(attempts, 3);
}

#[test]
fn stops_retrying_at_deadline_and_does_not_retry_other_errors() {
    let mut attempts = 0;
    let (result, elapsed, pauses) = retry(120 * MILLISECOND, 0, || {
        attempts += 1;
        of_kind("DirectoryNotEmpty")
    });
    assert_eq!(deletion_error(result).kind.name(), "DirectoryNotEmpty");
    assert!(attempts > 1);
    assert!(elapsed < 1000 * MILLISECOND);
    assert_eq!(pauses, [50 * MILLISECOND, 70 * MILLISECOND]);
    let mut attempts = 0;
    let (result, _, _) = retry(5000 * MILLISECOND, 0, || {
        attempts += 1;
        of_kind("PermissionDenied")
    });
    assert!(result.is_err());
    assert_eq!(attempts, 1);
}

#[test]
fn pauses_double_up_to_their_limit() {
    assert_eq!(RETRY_TIMEOUT, 5000 * MILLISECOND);
    assert_eq!(INITIAL_BACKOFF, 50 * MILLISECOND);
    assert_eq!(MAX_BACKOFF, 500 * MILLISECOND);
    let (_, elapsed, pauses) = retry(RETRY_TIMEOUT, 0, || of_kind("DirectoryNotEmpty"));
    let expected: Vec<u128> = [50, 100, 200, 400, 500, 500, 500, 500, 500, 500, 500, 500, 250]
        .iter()
        .map(|pause| pause * MILLISECOND)
        .collect();
    assert_eq!(pauses, expected);
    assert_eq!(elapsed, RETRY_TIMEOUT);
}

#[test]
fn an_attempt_that_ends_at_the_deadline_is_the_last_one() {
    let (result, _, pauses) = retry(10 * MILLISECOND, 10 * MILLISECOND, || {
        of_kind("DirectoryNotEmpty")
    });
    assert_eq!(deletion_error(result).message, "it failed");
    assert_eq!(pauses.len(), 0);
    let (result, _, _) = retry(0, 0, || Ok(()));
    assert!(result.is_ok());
    let late = Retry::directory_not_empty(5);
    assert_eq!(late.pause(5), 0);
    assert_eq!(late.pause(3), 2);
}

#[test]
fn persists_before_rename_and_clears_only_after_success() {
    let mut disk = disk();
    let original = "/base/worktree";
    let trash = "/base/.workmux_trash_test";
    disk.write("/base/worktree/file", "contents");
    let identity = disk.identity(original);
    let pending =
        persist(&mut disk, "/base/state", &FsPath::from_text(original), trash, identity).ok().unwrap();
    let record_path = pending.record_path().to_text();
    let record: serde_json::Value = serde_json::from_str(&disk.read(&record_path)).unwrap();
    assert_eq!(record["quarantine_path"], trash);
    assert!(disk.holds(original));
    assert!(!disk.holds(trash));
    disk.rename(original, trash);
    let deleted = disk.remove(&pending.path().to_text(), pending.identity());
    match pending.remove(deleted) {
        PendingRemoval::ClearRecord(clearing) => {
            let cleared = disk.remove_file(clearing.record_path());
            assert!(clearing.answer(cleared).is_ok());
        }
        PendingRemoval::Diagnose(_) => panic!("the worktree was not deleted"),
    }
    assert!(!disk.holds(&record_path));
    assert!(!disk.holds(trash));
}

#[test]
fn preserves_non_utf8_paths_and_refuses_unwritable_record_location() {
    let mut disk = disk();
    let original = FsPath::from_text("/base/worktree");
    let trash = "/base/.workmux_trash_test";
    disk.create_dir_all("/base/worktree");
    disk.write("/base/state", "not a directory");
    let identity = disk.identity("/base/worktree");
    assert!(persist(&mut disk, "/base/state", &original, trash, identity).is_err());
    assert!(disk.holds("/base/worktree"));
    assert!(!disk.holds(trash));
    assert!(disk.remove_file(&FsPath::from_text("/base/state")).is_ok());
    let non_utf8 = FsPath::from_text("/base").join(&FsPath::new(b"worktree-\xff".to_vec()));
    let pending = persist(&mut disk, "/base/state", &non_utf8, trash, identity).ok().unwrap();
    let record: serde_json::Value =
        serde_json::from_str(&disk.read(&pending.record_path().to_text())).unwrap();
    let bytes: Vec<u8> = serde_json::from_value(record["original_path_bytes"].clone()).unwrap();
    assert_eq!(bytes, non_utf8.as_bytes());
    assert_eq!(record["original_path"], "/base/worktree-\u{fffd}");
}

#[test]
fn preserves_record_and_rejects_replaced_directory() {
    let mut disk = disk();
    let trash = "/base/.workmux_trash_test";
    disk.create_dir_all("/base/original");
    let identity = disk.identity("/base/original");
    let original = FsPath::from_text("/base/original");
    let pending = persist(&mut disk, "/base/state", &original, trash, identity).ok().unwrap();
    let record_path = pending.record_path().to_text();
    disk.write("/base/.workmux_trash_test/sentinel", "keep");
    let deleted = disk.remove(&pending.path().to_text(), pending.identity());
    let failure = match pending.remove(deleted) {
        PendingRemoval::ClearRecord(_) => panic!("the record was cleared"),
        PendingRemoval::Diagnose(failed) => {
            assert_eq!(failed.path().to_text(), trash);
            failed.answer("1 entry remains")
        }
    };
    assert!(failure.messages().join(": ").contains("identity changed"));
    assert_eq!(
        failure.messages(),
        [
            "Failed to remove quarantined worktree /base/.workmux_trash_test (kind=Other, \
             errno=None); pending cleanup record retained at \
             /base/state/.workmux_trash_test.json; 1 entry remains",
            "Quarantined worktree identity changed before deletion",
        ]
    );
    assert!(disk.holds(&record_path));
    assert!(disk.holds("/base/.workmux_trash_test/sentinel"));
}

#[test]
fn a_quarantine_path_without_a_name_is_refused() {
    let preparation = || {
        PendingCleanup::prepare_in(
            &FsPath::from_text("/base/state"),
            &FsPath::from_text("/base/worktree"),
            FsPath::from_text("/base/.."),
            DirectoryIdentity { device: 1, inode: 2 },
        )
    };
    let refused = preparation().answer(Ok(())).err().unwrap();
    assert!(matches!(refused, PrepareError::MissingFileName));
    assert_eq!(refused.message().as_deref(), Some("Quarantine path has no filename"));
    // The directory comes first.
    let unwritable = error("PermissionDenied", 13, "Permission denied (os error 13)");
    let refused = preparation().answer(Err(unwritable)).err().unwrap();
    assert!(matches!(refused, PrepareError::NoDirectory(_)));
}

#[test]
fn nothing_is_pending_without_its_record() {
    let preparation = || {
        PendingCleanup::prepare_in(
            &FsPath::from_text("/base/state"),
            &FsPath::from_text("/base/worktree"),
            FsPath::from_text("/base/.trash"),
            DirectoryIdentity { device: 1, inode: 2 },
        )
    };
    assert_eq!(preparation().directory().to_text(), "/base/state");
    let denied = || error("PermissionDenied", 13, "Permission denied (os error 13)");
    let refused = preparation().answer(Err(denied())).err().unwrap();
    assert_eq!(refused.message(), None);
    match refused {
        PrepareError::NoDirectory(error) => assert_eq!(error.errno, Some(13)),
        _ => panic!("the directory was created"),
    }
    let writing = preparation().answer(Ok(())).ok().unwrap();
    assert_eq!(writing.record_path().to_text(), "/base/state/.trash.json");
    let refused = writing.answer(Err(denied())).err().unwrap();
    assert_eq!(
        refused.message().as_deref(),
        Some("Failed to persist pending cleanup before quarantine")
    );
    match refused {
        PrepareError::NotPersisted(error) => {
            assert_eq!(error.message, "Permission denied (os error 13)");
        }
        _ => panic!("the record was stored"),
    }
    let (pending, _) = prepared(preparation());
    assert_eq!(pending.path().to_text(), "/base/.trash");
    assert_eq!(pending.identity(), DirectoryIdentity { device: 1, inode: 2 });
}

#[test]
fn the_record_says_all_there_is_to_know() {
    let (pending, record) = prepared(PendingCleanup::prepare(
        &FsPath::from_text("/home/me/.local/state/workmux"),
        &FsPath::from_text("/w/feature"),
        FsPath::from_text("/w/.trash_\"1\""),
        DirectoryIdentity { device: u64::MAX, inode: 12 },
    ));
    assert_eq!(
        pending.record_path().to_text(),
        "/home/me/.local/state/workmux/pending-cleanup/.trash_\"1\".json"
    );
    assert_eq!(
        PendingCleanup::record_directory(&FsPath::from_text("/s")).to_text(),
        "/s/pending-cleanup"
    );
    let text = String::from_utf8(record).unwrap();
    assert!(text.starts_with("{\n  \"device\": 18446744073709551615,\n"), "{text}");
    let record: serde_json::Value = serde_json::from_str(&text).unwrap();
    assert_eq!(record.as_object().unwrap().len(), 8);
    assert_eq!(record["version"], 1);
    assert_eq!(record["original_path"], "/w/feature");
    assert_eq!(record["quarantine_path"], "/w/.trash_\"1\"");
    assert_eq!(record["device"], u64::MAX);
    assert_eq!(record["inode"], 12);
    assert_eq!(
        record["scope"],
        "filesystem only; Git cleanup may be incomplete; do not replay branch deletion"
    );
    let bytes: Vec<u8> =
        serde_json::from_value(record["quarantine_path_bytes"].clone()).unwrap();
    assert_eq!(bytes, b"/w/.trash_\"1\"");
}

#[test]
fn a_record_that_is_not_cleared_is_reported() {
    let (pending, _) = prepared(PendingCleanup::prepare_in(
        &FsPath::from_text("/s"),
        &FsPath::from_text("/w/feature"),
        FsPath::from_text("/w/.trash"),
        DirectoryIdentity { device: 1, inode: 2 },
    ));
    let clearing = match pending.remove(Ok(())) {
        PendingRemoval::ClearRecord(clearing) => clearing,
        PendingRemoval::Diagnose(_) => panic!("the worktree was not deleted"),
    };
    assert_eq!(clearing.record_path().to_text(), "/s/.trash.json");
    let failure = clearing
        .answer(Err(error("PermissionDenied", 13, "Permission denied (os error 13)")))
        .err()
        .unwrap();
    assert!(matches!(failure, CleanupError::RecordNotCleared { .. }));
    assert_eq!(
        failure.messages(),
        [
            "Worktree deleted, but failed to clear pending cleanup record",
            "Permission denied (os error 13)",
        ]
    );
}

#[test]
fn failed_deletions_are_explained_with_their_error_number() {
    let (pending, _) = prepared(PendingCleanup::prepare_in(
        &FsPath::from_text("/s"),
        &FsPath::from_text("/w/feature"),
        FsPath::from_text("/w/.trash"),
        DirectoryIdentity { device: 1, inode: 2 },
    ));
    match pending.remove(Err(error("PermissionDenied", 13, "Permission denied"))) {
        PendingRemoval::ClearRecord(_) => panic!("the record was cleared"),
        PendingRemoval::Diagnose(failed) => assert_eq!(
            failed.answer("nothing remains").messages()[0],
            "Failed to remove quarantined worktree /w/.trash (kind=PermissionDenied, \
             errno=Some(13)); pending cleanup record retained at /s/.trash.json; nothing remains"
        ),
    }
}

#[test]
fn removes_nested_files_without_following_symlinks() {
    let mut disk = disk();
    let tree = "/base/trash with 'quotes' and $dollars";
    disk.write(&format!("{tree}/a/b/file"), "remove");
    disk.write("/outside/sentinel", "keep");
    disk.symlink("/outside", &format!("{tree}/link"));
    disk.symlink("missing", &format!("{tree}/broken-link"));
    let identity = disk.identity(tree);
    assert!(disk.remove(tree, identity).is_ok());
    assert!(!disk.holds(tree));
    assert_eq!(disk.read("/outside/sentinel"), "keep");
    assert_eq!(
        disk.removed,
        ["file", "b", "a", "link", "broken-link", "trash with 'quotes' and $dollars"]
    );
}

#[test]
fn rejects_a_different_root_and_accepts_an_absent_root() {
    let mut disk = disk();
    disk.write("/base/sentinel", "keep");
    disk.create_dir_all("/other");
    let other = disk.identity("/other");
    let base = disk.identity("/base");
    assert_eq!(
        deletion_error(disk.remove("/base", other)).message,
        "Quarantined worktree identity changed before deletion"
    );
    assert!(disk.holds("/base/sentinel"));
    assert!(disk.remove("/base/missing", base).is_ok());
    assert!(disk.remove("/nowhere/missing", base).is_ok());
    assert_eq!(disk.removed.len(), 0);
}

#[test]
fn nesting_failure_does_not_prevent_sibling_cleanup() {
    let mut disk = disk();
    let tree = "/base/tree";
    let mut deep = tree.to_string();
    for _ in 0..=MAX_DEPTH {
        deep.push_str("/nested");
    }
    disk.create_dir_all(&deep);
    disk.write("/base/tree/unrelated-build/artifact", "remove");
    let identity = disk.identity(tree);
    let error = deletion_error(disk.remove(tree, identity));
    assert!(error.message.contains("nesting exceeds cleanup limit"));
    assert_eq!(error.kind.name(), "Other");
    assert!(disk.holds(&deep));
    assert!(!disk.holds("/base/tree/unrelated-build"));
}

#[test]
fn the_deepest_directories_within_the_limit_are_removed() {
    let mut disk = disk();
    let mut deep = "/base/tree".to_string();
    for _ in 1..MAX_DEPTH {
        deep.push_str("/nested");
    }
    disk.create_dir_all(&deep);
    let identity = disk.identity("/base/tree");
    assert!(disk.remove("/base/tree", identity).is_ok());
    assert!(!disk.holds("/base/tree"));
}

#[test]
fn rejects_a_symlink_quarantine_root() {
    let mut disk = disk();
    disk.write("/outside/sentinel", "keep");
    disk.symlink("/outside", "/base/link");
    let outside = disk.identity("/outside");
    assert!(disk.remove("/base/link", outside).is_err());
    assert!(disk.holds("/base/link"));
    assert!(disk.holds("/outside/sentinel"));
}

#[test]
fn reports_permanent_errors_without_masking_them_with_nonempty_ancestors() {
    let mut failures = Failures::default();
    failures.record("\"missing\"", of_kind("NotFound"));
    failures.record("\"busy\"", of_kind("DirectoryNotEmpty"));
    failures.record("\"protected\"", of_kind("PermissionDenied"));
    let error = deletion_error(failures.finish());
    assert_eq!(error.kind.name(), "PermissionDenied");
    assert!(error.message.contains("2 errors"));
    assert!(error.message.contains("protected"));
}

#[test]
fn bounds_failure_details() {
    let mut failures = Failures::default();
    for _ in 0..1000 {
        failures.record("\"entry\"", of_kind("DirectoryNotEmpty"));
    }
    assert!(failures.details().len() <= MAX_ERROR_BYTES);
    let message = deletion_error(failures.finish()).message;
    assert!(message.contains("1000 errors"));
    assert!(message.ends_with(" [error details truncated]"));
}

#[test]
fn details_are_cut_between_characters() {
    let mut failures = Failures::default();
    let label = "€".repeat(MAX_ERROR_BYTES);
    failures.record(&label, of_kind("Other"));
    // The line break and as many characters of three bytes as fit.
    assert_eq!(failures.details().len(), 1 + 3 * ((MAX_ERROR_BYTES - 1) / 3));
    let mut failures = Failures::default();
    failures.record(&"€".repeat(5461), of_kind("Other"));
    assert_eq!(failures.details().len(), MAX_ERROR_BYTES);
    failures.record("\"more\"", of_kind("Other"));
    assert_eq!(failures.details().len(), MAX_ERROR_BYTES);
    let mut failures = Failures::default();
    failures.record(&"€".repeat(5460), of_kind("Other"));
    assert_eq!(failures.details().len(), MAX_ERROR_BYTES);
    assert!(failures.details().ends_with("€: i"));
}

#[test]
fn failures_read_line_by_line() {
    let mut failures = Failures::default();
    failures.record("\"fine\"", Ok(()));
    failures.record("\"a\"", Err(error("PermissionDenied", 13, "Permission denied (os error 13)")));
    failures.record("\"b\"", of_kind("Other"));
    let error = deletion_error(failures.finish());
    assert_eq!(
        error.message,
        "Recursive deletion encountered 2 errors:\n\"a\": Permission denied (os error 13) \
         (errno=Some(13))\n\"b\": it failed (errno=None)"
    );
    assert_eq!(error.kind.name(), "PermissionDenied");
    assert_eq!(error.errno, None);
    assert!(Failures::default().finish().is_ok());
}

#[test]
fn siblings_of_a_protected_entry_are_removed() {
    let mut disk = disk();
    disk.write("/base/tree/first", "remove");
    disk.write("/base/tree/locked/secret", "keep");
    disk.write("/base/tree/last/file", "remove");
    disk.protected.push(b"locked".to_vec());
    let identity = disk.identity("/base/tree");
    let error = deletion_error(disk.remove("/base/tree", identity));
    assert_eq!(disk.removed, ["first", "file", "last"]);
    assert!(disk.holds("/base/tree/locked/secret"));
    assert_eq!(error.kind.name(), "PermissionDenied");
    assert_eq!(
        error.message,
        "Recursive deletion encountered 2 errors:\
         \n\"/base/tree/locked\": Permission denied (errno=Some(13))\
         \n\"/base/tree\": Directory not empty (errno=Some(39))"
    );
}

#[test]
fn a_directory_that_was_exchanged_is_not_removed() {
    let mut disk = disk();
    disk.write("/base/tree/moving/file", "remove");
    disk.swapped.push(b"moving".to_vec());
    let identity = disk.identity("/base/tree");
    let error = deletion_error(disk.remove("/base/tree", identity));
    assert!(error
        .message
        .contains("\"/base/tree/moving\": Directory identity changed before removal (errno=None)"));
    assert!(disk.holds("/base/tree/moving"));
    assert_eq!(disk.removed, ["file"]);
}

#[test]
fn late_files_make_the_deletion_transiently_fail() {
    let mut disk = disk();
    disk.create_dir_all("/base/tree/busy");
    disk.late.push(b"busy".to_vec());
    let identity = disk.identity("/base/tree");
    let error = deletion_error(disk.remove("/base/tree", identity));
    assert_eq!(error.kind.name(), "DirectoryNotEmpty");
    assert!(error.message.contains("2 errors"));
    disk.late.clear();
    let (result, _, pauses) =
        retry(RETRY_TIMEOUT, MILLISECOND, || disk.remove("/base/tree", identity));
    assert!(result.is_ok());
    assert_eq!(pauses.len(), 0);
}

#[test]
fn paths_without_parent_or_name_are_refused() {
    let identity = DirectoryIdentity { device: 1, inode: 2 };
    let refused = |path: &str| {
        let tree = TreeRemoval::begin(&FsPath::from_text(path), "label", identity);
        deletion_error(tree.outcome().unwrap()).message
    };
    assert_eq!(refused("/"), "Missing quarantine parent");
    assert_eq!(refused(""), "Missing quarantine parent");
    assert_eq!(refused("/a/.."), "Missing quarantine filename");
    let started = TreeRemoval::begin(&FsPath::from_text("/a/b"), "label", identity);
    assert_eq!(started.parent_path().to_text(), "/a");
    assert_eq!(started.directory_name(), b"b");
    assert!(started.outcome().is_none());
}

#[test]
fn failures_before_the_check_end_the_deletion() {
    let identity = DirectoryIdentity { device: 1, inode: 2 };
    let begin = || TreeRemoval::begin(&FsPath::from_text("/a/b"), "label", identity);
    let denied = || TreeEvent::Failed(error("PermissionDenied", 13, "Permission denied"));
    let first = begin().answer(denied());
    assert_eq!(deletion_error(first.outcome().unwrap()).errno, Some(13));
    let second = begin().answer(TreeEvent::Opened).answer(denied());
    assert_eq!(deletion_error(second.outcome().unwrap()).message, "Permission denied");
    let third = begin().answer(TreeEvent::Opened).answer(TreeEvent::Opened).answer(denied());
    assert_eq!(deletion_error(third.outcome().unwrap()).kind.name(), "PermissionDenied");
}

#[test]
fn unreadable_directories_are_still_tried() {
    let identity = DirectoryIdentity { device: 1, inode: 2 };
    let tree = TreeRemoval::begin(&FsPath::from_text("/a/b"), "\"/a/b\"", identity)
        .answer(TreeEvent::Opened)
        .answer(TreeEvent::Opened)
        .answer(TreeEvent::Identity(identity))
        .answer(TreeEvent::Failed(error("Uncategorized", 5, "Input/output error")));
    assert!(matches!(tree.phase(), Phase::StatOpened));
    let tree = tree.answer(TreeEvent::Identity(identity)).answer(TreeEvent::Identity(identity));
    assert!(matches!(tree.phase(), Phase::RemoveDirectory));
    let error = deletion_error(tree.answer(TreeEvent::Removed).outcome().unwrap());
    assert_eq!(error.kind.name(), "Uncategorized");
    assert_eq!(
        error.message,
        "Recursive deletion encountered 1 errors:\n\"/a/b\": Input/output error (errno=Some(5))"
    );
}

#[test]
fn errors_are_known_by_the_names_of_their_kinds() {
    let name = |errno: i32| format!("{:?}", std::io::Error::from_raw_os_error(errno).kind());
    assert_eq!(name(2), "NotFound");
    assert_eq!(name(20), "NotADirectory");
    assert_eq!(name(39), "DirectoryNotEmpty");
    assert_eq!(name(40), "FilesystemLoop");
    assert_eq!(format!("{:?}", std::io::Error::other("it failed").kind()), "Other");
}

#[test]
fn open_errors_decide_what_is_done() {
    let identity = DirectoryIdentity { device: 1, inode: 2 };
    let begin = || TreeRemoval::begin(&FsPath::from_text("/a/b"), "label", identity);
    let missing = || TreeEvent::Failed(error("NotFound", 2, "No such file"));
    assert!(matches!(begin().answer(missing()).outcome(), Some(Ok(()))));
    let opened = begin().answer(TreeEvent::Opened);
    assert!(matches!(opened.answer(missing()).outcome(), Some(Ok(()))));
    let entry = || {
        begin()
            .answer(TreeEvent::Opened)
            .answer(TreeEvent::Opened)
            .answer(TreeEvent::Identity(identity))
            .answer(TreeEvent::Opened)
            .answer(TreeEvent::Entry { name: b"x".to_vec(), label: "\"/a/b/x\"".to_string() })
    };
    for kind in ["NotADirectory", "FilesystemLoop"] {
        let tree = entry().answer(TreeEvent::Failed(error(kind, 0, "no directory")));
        match tree.phase() {
            Phase::UnlinkEntry(entry) => assert_eq!(entry.name, b"x"),
            _ => panic!("{kind} does not lead to unlinking"),
        }
    }
    for kind in ["PermissionDenied", "NotFound", "Other"] {
        let tree = entry().answer(TreeEvent::Failed(error(kind, 0, "it failed")));
        assert!(matches!(tree.phase(), Phase::ReadEntry));
    }
    let looping = begin()
        .answer(TreeEvent::Opened)
        .answer(TreeEvent::Failed(error("FilesystemLoop", 40, "a link")));
    assert_eq!(deletion_error(looping.outcome().unwrap()).message, "a link");
}
