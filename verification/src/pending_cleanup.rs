//! Pending deletions of quarantined worktrees, and the records that keep track
//! of them.

use crate::cleanup_tree::DirectoryIdentity;
use crate::failures;
use crate::failures::{write_errno, IoError, IoErrorView};
use crate::fs_path;
use crate::fs_path::FsPath;
use crate::json_record;
use crate::json_record::JsonValue;
use crate::text;
use vstd::prelude::*;

verus! {

broadcast use vstd::string::group_string_axioms;

/// A quarantined worktree that is still to be deleted, and the record that keeps
/// track of it.
pub struct PendingCleanup {
    path: FsPath,
    record_path: FsPath,
    identity: DirectoryIdentity,
}

/// What a pending cleanup holds.
pub struct PendingView {
    pub path: Seq<u8>,
    pub record_path: Seq<u8>,
    pub identity: DirectoryIdentity,
}

impl View for PendingCleanup {
    type V = PendingView;

    closed spec fn view(&self) -> PendingView {
        PendingView {
            path: self.path@,
            record_path: self.record_path@,
            identity: self.identity,
        }
    }
}

/// Why a cleanup could not be prepared.
pub enum PrepareError {
    /// The directory of the record could not be created.
    NoDirectory(IoError),
    /// The quarantine path has no file name.
    MissingFileName,
    /// The record could not be written as text.
    Record(serde_json::Error),
    /// The record could not be stored.
    NotPersisted(IoError),
}

/// What a prepare error holds; how the JSON writer failed is not told.
pub enum PrepareErrorView {
    NoDirectory(IoErrorView),
    MissingFileName,
    Record,
    NotPersisted(IoErrorView),
}

impl View for PrepareError {
    type V = PrepareErrorView;

    open spec fn view(&self) -> PrepareErrorView {
        match *self {
            PrepareError::NoDirectory(error) => PrepareErrorView::NoDirectory(error@),
            PrepareError::MissingFileName => PrepareErrorView::MissingFileName,
            PrepareError::Record(_) => PrepareErrorView::Record,
            PrepareError::NotPersisted(error) => PrepareErrorView::NotPersisted(error@),
        }
    }
}

impl PrepareErrorView {
    /// What the preparation itself says of the error; the other errors have
    /// messages of their own only.
    pub open spec fn message(self) -> Option<Seq<char>> {
        match self {
            PrepareErrorView::MissingFileName => Some("Quarantine path has no filename"@),
            PrepareErrorView::NotPersisted(_) => Some(
                "Failed to persist pending cleanup before quarantine"@,
            ),
            _ => None,
        }
    }
}

impl PrepareError {
    /// What the preparation itself says of the error.
    pub fn message(&self) -> (message: Option<String>)
        ensures
            text::text_option(message) == self@.message(),
    {
        match self {
            PrepareError::MissingFileName => Some("Quarantine path has no filename".to_owned()),
            PrepareError::NotPersisted(_) => Some(
                "Failed to persist pending cleanup before quarantine".to_owned(),
            ),
            _ => None,
        }
    }
}

/// The directory of the records below the state directory.
pub open spec fn record_directory(state_dir: Seq<u8>) -> Seq<u8> {
    fs_path::join(state_dir, vstd::utf8::encode_utf8("pending-cleanup"@))
}

/// The file name of the record of a quarantined worktree.
pub open spec fn record_name(name: Seq<u8>) -> Seq<u8> {
    name + vstd::utf8::encode_utf8(".json"@)
}

/// What the record says: enough to find the directory again, byte for byte, and
/// to tell it from any other.
pub open spec fn record_members(
    original: Seq<u8>,
    quarantine: Seq<u8>,
    identity: DirectoryIdentity,
) -> Map<Seq<char>, JsonValue> {
    json_record::no_members().insert("version"@, JsonValue::Number(1)).insert(
        "original_path"@,
        JsonValue::Text(fs_path::utf8_lossy(original)),
    ).insert("original_path_bytes"@, JsonValue::Bytes(original)).insert(
        "quarantine_path"@,
        JsonValue::Text(fs_path::utf8_lossy(quarantine)),
    ).insert("quarantine_path_bytes"@, JsonValue::Bytes(quarantine)).insert(
        "device"@,
        JsonValue::Number(identity.device),
    ).insert("inode"@, JsonValue::Number(identity.inode)).insert(
        "scope"@,
        JsonValue::Text(
            "filesystem only; Git cleanup may be incomplete; do not replay branch deletion"@,
        ),
    )
}

impl PendingCleanup {
    /// The directory that the records are kept in.
    pub fn record_directory(state_dir: &FsPath) -> (directory: FsPath)
        ensures
            directory@ == record_directory(state_dir@),
    {
        state_dir.join(&FsPath::from_text("pending-cleanup"))
    }

    /// Begin to prepare a cleanup with its record below the state directory. The
    /// record is stored before the worktree is renamed, so that it cannot become an
    /// untracked orphan.
    pub fn prepare(
        state_dir: &FsPath,
        original_path: &FsPath,
        path: FsPath,
        identity: DirectoryIdentity,
    ) -> (preparation: Preparation)
        ensures
            preparation@ == (PreparationView {
                directory: record_directory(state_dir@),
                original: original_path@,
                path: path@,
                identity,
            }),
    {
        Self::prepare_in(&Self::record_directory(state_dir), original_path, path, identity)
    }

    /// Begin to prepare a cleanup with its record in the given directory.
    pub fn prepare_in(
        directory: &FsPath,
        original_path: &FsPath,
        path: FsPath,
        identity: DirectoryIdentity,
    ) -> (preparation: Preparation)
        ensures
            preparation@ == (PreparationView {
                directory: directory@,
                original: original_path@,
                path: path@,
                identity,
            }),
    {
        Preparation {
            directory: directory.clone(),
            original: original_path.clone(),
            path,
            identity,
        }
    }

    /// The path of the quarantined worktree.
    pub fn path(&self) -> (path: &FsPath)
        ensures
            path@ == self@.path,
    {
        &self.path
    }

    /// The path of the record.
    pub fn record_path(&self) -> (path: &FsPath)
        ensures
            path@ == self@.record_path,
    {
        &self.record_path
    }

    /// The identity of the quarantined worktree.
    pub fn identity(&self) -> (identity: DirectoryIdentity)
        ensures
            identity == self@.identity,
    {
        self.identity
    }
}

/// A cleanup being prepared: the directory of its record is to be created.
pub struct Preparation {
    directory: FsPath,
    original: FsPath,
    path: FsPath,
    identity: DirectoryIdentity,
}

/// What a preparation holds.
pub struct PreparationView {
    pub directory: Seq<u8>,
    pub original: Seq<u8>,
    pub path: Seq<u8>,
    pub identity: DirectoryIdentity,
}

impl View for Preparation {
    type V = PreparationView;

    closed spec fn view(&self) -> PreparationView {
        PreparationView {
            directory: self.directory@,
            original: self.original@,
            path: self.path@,
            identity: self.identity,
        }
    }
}

/// A cleanup being prepared: its record is to be stored.
pub struct RecordWriting {
    pending: PendingCleanup,
    record: Vec<u8>,
}

/// What the storing of a record holds.
pub struct WritingView {
    pub pending: PendingView,
    pub record: Seq<u8>,
}

impl View for RecordWriting {
    type V = WritingView;

    closed spec fn view(&self) -> WritingView {
        WritingView { pending: self.pending@, record: self.record@ }
    }
}

impl PreparationView {
    /// The members of the record.
    pub open spec fn members(self) -> Map<Seq<char>, JsonValue> {
        record_members(self.original, self.path, self.identity)
    }

    /// What follows once it is known whether the directory of the record is there:
    /// the record is to be stored, or there is an error.
    pub open spec fn after_directory(self, created: Result<(), IoErrorView>) -> Result<
        WritingView,
        PrepareErrorView,
    > {
        match (created, fs_path::file_name(self.path)) {
            (Err(error), _) => Err(PrepareErrorView::NoDirectory(error)),
            (_, None) => Err(PrepareErrorView::MissingFileName),
            (_, Some(name)) => Ok(
                WritingView {
                    pending: PendingView {
                        path: self.path,
                        record_path: fs_path::join(self.directory, record_name(name)),
                        identity: self.identity,
                    },
                    record: json_record::pretty_json(self.members()),
                },
            ),
        }
    }

    /// The outcome of the preparation, given what comes of its two file operations.
    pub open spec fn outcome(
        self,
        created: Result<(), IoErrorView>,
        written: Result<(), IoErrorView>,
    ) -> Result<PendingView, PrepareErrorView> {
        match self.after_directory(created) {
            Ok(writing) => writing.after_write(written),
            Err(error) => Err(error),
        }
    }

    /// The paths that the preparation asks to create, given what comes of creating
    /// the first.
    pub open spec fn created_paths(self, created: Result<(), IoErrorView>) -> Seq<Seq<u8>> {
        match self.after_directory(created) {
            Ok(writing) => seq![self.directory, writing.pending.record_path],
            Err(_) => seq![self.directory],
        }
    }
}

impl WritingView {
    /// What follows once it is known whether the record is stored: the cleanup is
    /// pending only if it is.
    pub open spec fn after_write(self, written: Result<(), IoErrorView>) -> Result<
        PendingView,
        PrepareErrorView,
    > {
        match written {
            Ok(_) => Ok(self.pending),
            Err(error) => Err(PrepareErrorView::NotPersisted(error)),
        }
    }
}

impl Preparation {
    /// The directory to create, with those above it.
    pub fn directory(&self) -> (directory: &FsPath)
        ensures
            directory@ == self@.directory,
    {
        &self.directory
    }

    /// Go on, knowing whether the directory is there.
    pub fn answer(self, created: Result<(), IoError>) -> (next: Result<RecordWriting, PrepareError>)
        ensures
            match self@.after_directory(failures::outcome_view(created)) {
                Ok(writing) => next matches Ok(got) && got@ == writing
                    && json_record::json_object_in(got@.record) == Some(self@.members()),
                Err(error) => next matches Err(got) && got@ == error,
            },
    {
        if let Err(error) = created {
            return Err(PrepareError::NoDirectory(error));
        }
        let name = match self.path.file_name() {
            Some(name) => name,
            None => {
                return Err(PrepareError::MissingFileName);
            },
        };
        let mut file_name = name;
        let mut extension = ".json".as_bytes_vec();
        file_name.append(&mut extension);
        let record_path = self.directory.join(&FsPath::new(file_name));
        let mut record = json_record::new_object();
        json_record::insert_number(&mut record, "version", 1);
        json_record::insert_text(&mut record, "original_path", self.original.to_text().as_str());
        json_record::insert_bytes(&mut record, "original_path_bytes", self.original.as_bytes());
        json_record::insert_text(&mut record, "quarantine_path", self.path.to_text().as_str());
        json_record::insert_bytes(&mut record, "quarantine_path_bytes", self.path.as_bytes());
        json_record::insert_number(&mut record, "device", self.identity.device);
        json_record::insert_number(&mut record, "inode", self.identity.inode);
        json_record::insert_text(
            &mut record,
            "scope",
            "filesystem only; Git cleanup may be incomplete; do not replay branch deletion",
        );
        match json_record::write_pretty(&record) {
            Ok(record) => Ok(
                RecordWriting {
                    pending: PendingCleanup {
                        path: self.path,
                        record_path,
                        identity: self.identity,
                    },
                    record,
                },
            ),
            Err(error) => Err(PrepareError::Record(error)),
        }
    }
}

impl RecordWriting {
    /// Where the record is to be stored.
    pub fn record_path(&self) -> (path: &FsPath)
        ensures
            path@ == self@.pending.record_path,
    {
        &self.pending.record_path
    }

    /// The text of the record.
    pub fn record(&self) -> (record: &[u8])
        ensures
            record@ == self@.record,
    {
        self.record.as_slice()
    }

    /// The pending cleanup, knowing whether its record is stored.
    pub fn answer(self, written: Result<(), IoError>) -> (prepared: Result<
        PendingCleanup,
        PrepareError,
    >)
        ensures
            match self@.after_write(failures::outcome_view(written)) {
                Ok(pending) => prepared matches Ok(got) && got@ == pending,
                Err(error) => prepared matches Err(got) && got@ == error,
            },
    {
        match written {
            Ok(()) => Ok(self.pending),
            Err(error) => Err(PrepareError::NotPersisted(error)),
        }
    }
}

/// A preparation succeeds if and only if the directory of the record is there, the
/// quarantine path has a file name and the record is stored; so a cleanup is never
/// pending without its record. Nothing is created but that directory and, inside
/// it, the record.
pub proof fn lemma_nothing_is_pending_without_its_record(
    preparation: PreparationView,
    created: Result<(), IoErrorView>,
    written: Result<(), IoErrorView>,
)
    ensures
        preparation.outcome(created, written) is Ok <==> created is Ok && fs_path::file_name(
            preparation.path,
        ) is Some && written is Ok,
        match preparation.outcome(created, written) {
            Ok(pending) => preparation.created_paths(created) == seq![
                preparation.directory,
                pending.record_path,
            ] && pending.path == preparation.path && pending.identity == preparation.identity,
            Err(error) => match error {
                PrepareErrorView::NoDirectory(cause) => created == Err::<(), IoErrorView>(cause),
                PrepareErrorView::MissingFileName => created is Ok && fs_path::file_name(
                    preparation.path,
                ) is None,
                PrepareErrorView::Record => false,
                PrepareErrorView::NotPersisted(cause) => created is Ok && fs_path::file_name(
                    preparation.path,
                ) is Some && written == Err::<(), IoErrorView>(cause),
            },
        },
        preparation.created_paths(created)[0] == preparation.directory,
        preparation.created_paths(created).len() == 2 ==> fs_path::parent(
            preparation.created_paths(created)[1],
        ) is Some && fs_path::same_path(
            fs_path::parent(preparation.created_paths(created)[1])->0,
            preparation.directory,
        ),
        preparation.created_paths(created).len() <= 2,
{
    if fs_path::file_name(preparation.path) is Some {
        lemma_record_path(preparation.directory, preparation.path);
    }
}

/// Two records have the same members only if they are
/// of the same two paths, byte for byte, and of the same directory.
pub proof fn lemma_records_keep_paths_and_identities_apart(
    original: Seq<u8>,
    quarantine: Seq<u8>,
    identity: DirectoryIdentity,
    other_original: Seq<u8>,
    other_quarantine: Seq<u8>,
    other_identity: DirectoryIdentity,
)
    requires
        record_members(original, quarantine, identity) == record_members(
            other_original,
            other_quarantine,
            other_identity,
        ),
    ensures
        original == other_original,
        quarantine == other_quarantine,
        identity == other_identity,
{
    lemma_record_fields(original, quarantine, identity);
    lemma_record_fields(other_original, other_quarantine, other_identity);
}

/// What stands in the members of a record.
pub proof fn lemma_record_fields(
    original: Seq<u8>,
    quarantine: Seq<u8>,
    identity: DirectoryIdentity,
)
    ensures
        ({
            let members = record_members(original, quarantine, identity);
            &&& members["version"@] == JsonValue::Number(1)
            &&& members["original_path"@] == JsonValue::Text(fs_path::utf8_lossy(original))
            &&& members["original_path_bytes"@] == JsonValue::Bytes(original)
            &&& members["quarantine_path"@] == JsonValue::Text(fs_path::utf8_lossy(quarantine))
            &&& members["quarantine_path_bytes"@] == JsonValue::Bytes(quarantine)
            &&& members["device"@] == JsonValue::Number(identity.device)
            &&& members["inode"@] == JsonValue::Number(identity.inode)
            &&& members["scope"@] == JsonValue::Text(
                "filesystem only; Git cleanup may be incomplete; do not replay branch deletion"@,
            )
        }),
{
    reveal_strlit("version");
    reveal_strlit("original_path");
    reveal_strlit("original_path_bytes");
    reveal_strlit("quarantine_path");
    reveal_strlit("quarantine_path_bytes");
    reveal_strlit("device");
    reveal_strlit("inode");
    reveal_strlit("scope");
    assert("version"@.len() == 7);
    assert("original_path"@.len() == 13);
    assert("original_path_bytes"@.len() == 19);
    assert("quarantine_path"@.len() == 15);
    assert("quarantine_path_bytes"@.len() == 21);
    assert("device"@.len() == 6);
    assert("inode"@.len() == 5 && "scope"@.len() == 5);
    assert("inode"@[0] != "scope"@[0]);
}

/// The record of a worktree stands directly in the record directory, under the
/// name of the worktree's own directory.
pub proof fn lemma_record_path(directory: Seq<u8>, path: Seq<u8>)
    requires
        fs_path::file_name(path) is Some,
    ensures
        ({
            let name = record_name(fs_path::file_name(path)->0);
            let record = fs_path::join(directory, name);
            &&& fs_path::file_name(record) == Some(name)
            &&& fs_path::parent(record) is Some
            &&& fs_path::same_path(fs_path::parent(record)->0, directory)
        }),
{
    let own = fs_path::file_name(path)->0;
    let extension = vstd::utf8::encode_utf8(".json"@);
    let name = record_name(own);
    fs_path::lemma_file_name_is_segment(path);
    reveal_strlit(".json");
    assert(".json"@ =~= seq!['.', 'j', 's', 'o', 'n']);
    vstd::utf8::is_ascii_chars_encode_utf8(".json"@);
    assert(extension =~= seq![0x2eu8, 0x6au8, 0x73u8, 0x6fu8, 0x6eu8]);
    assert(name.len() >= 6);
    if name.contains(0x2f) {
        let k = choose|k: int| 0 <= k < name.len() && name[k] == 0x2f;
        if k < own.len() {
            assert(own.contains(own[k]));
        } else {
            assert(extension[k - own.len()] == 0x2f);
        }
    }
    fs_path::lemma_join_then_split(directory, name);
}

/// What is to be done once the deletion of a quarantined worktree has ended.
pub enum PendingRemoval {
    /// It is deleted: clear its record.
    ClearRecord(RecordClearing),
    /// It is not: look at what remains, and keep the record.
    Diagnose(FailedDeletion),
}

/// A worktree that is deleted, and whose record is to be cleared.
pub struct RecordClearing {
    record_path: FsPath,
}

/// A worktree whose deletion failed.
pub struct FailedDeletion {
    pending: PendingCleanup,
    error: IoError,
}

/// Why a cleanup failed.
pub enum CleanupError {
    /// The worktree could not be deleted; its record is kept.
    NotDeleted { context: String, error: IoError },
    /// The worktree is deleted, but its record could not be cleared.
    RecordNotCleared { error: IoError },
}

/// What a cleanup error holds.
pub enum CleanupErrorView {
    NotDeleted { context: Seq<char>, error: IoErrorView },
    RecordNotCleared { error: IoErrorView },
}

impl View for CleanupError {
    type V = CleanupErrorView;

    open spec fn view(&self) -> CleanupErrorView {
        match self {
            CleanupError::NotDeleted { context, error } => CleanupErrorView::NotDeleted {
                context: context@,
                error: error@,
            },
            CleanupError::RecordNotCleared { error } => CleanupErrorView::RecordNotCleared {
                error: error@,
            },
        }
    }
}

/// How a failed deletion is explained.
pub open spec fn failure_context(
    pending: PendingView,
    error: IoErrorView,
    snapshot: Seq<char>,
) -> Seq<char> {
    "Failed to remove quarantined worktree "@ + fs_path::utf8_lossy(pending.path) + " (kind="@
        + error.kind + ", errno="@ + failures::errno_text(error.errno)
        + "); pending cleanup record retained at "@ + fs_path::utf8_lossy(pending.record_path)
        + "; "@ + snapshot
}

impl CleanupErrorView {
    /// How the error reads, the outermost message first.
    pub open spec fn messages(self) -> Seq<Seq<char>> {
        match self {
            CleanupErrorView::NotDeleted { context, error } => seq![context, error.message],
            CleanupErrorView::RecordNotCleared { error } => seq![
                "Worktree deleted, but failed to clear pending cleanup record"@,
                error.message,
            ],
        }
    }
}

impl CleanupError {
    /// How the error reads, the outermost message first.
    pub fn messages(&self) -> (messages: Vec<String>)
        ensures
            text::texts(messages@) == self@.messages(),
    {
        let mut messages: Vec<String> = Vec::new();
        match self {
            CleanupError::NotDeleted { context, error } => {
                messages.push(context.clone());
                messages.push(error.message.clone());
            },
            CleanupError::RecordNotCleared { error } => {
                messages.push(
                    "Worktree deleted, but failed to clear pending cleanup record".to_owned(),
                );
                messages.push(error.message.clone());
            },
        }
        assert(text::texts(messages@) =~= self@.messages());
        messages
    }
}

impl RecordClearing {
    pub closed spec fn record(self) -> Seq<u8> {
        self.record_path@
    }

    /// The record to clear.
    pub fn record_path(&self) -> (path: &FsPath)
        ensures
            path@ == self.record(),
    {
        &self.record_path
    }

    /// The outcome of the cleanup, knowing what came of clearing the record.
    pub fn answer(self, cleared: Result<(), IoError>) -> (outcome: Result<(), CleanupError>)
        ensures
            match cleared {
                Ok(()) => outcome is Ok,
                Err(error) => outcome matches Err(got) && got@
                    == (CleanupErrorView::RecordNotCleared { error: error@ }),
            },
    {
        match cleared {
            Ok(()) => Ok(()),
            Err(error) => Err(CleanupError::RecordNotCleared { error }),
        }
    }
}

impl FailedDeletion {
    pub closed spec fn pending(self) -> PendingView {
        self.pending@
    }

    pub closed spec fn error(self) -> IoErrorView {
        self.error@
    }

    /// The path of the worktree that was not deleted.
    pub fn path(&self) -> (path: &FsPath)
        ensures
            path@ == self.pending().path,
    {
        &self.pending.path
    }

    /// The outcome of the cleanup, knowing what remains of the worktree.
    pub fn answer(self, snapshot: &str) -> (failure: CleanupError)
        ensures
            failure@ == (CleanupErrorView::NotDeleted {
                context: failure_context(self.pending(), self.error(), snapshot@),
                error: self.error(),
            }),
    {
        let mut context = "Failed to remove quarantined worktree ".to_owned();
        context.append(self.pending.path.to_text().as_str());
        context.append(" (kind=");
        context.append(self.error.kind.name());
        context.append(", errno=");
        context.append(write_errno(self.error.errno).as_str());
        context.append("); pending cleanup record retained at ");
        context.append(self.pending.record_path.to_text().as_str());
        context.append("; ");
        context.append(snapshot);
        CleanupError::NotDeleted { context, error: self.error }
    }
}

impl PendingCleanup {
    /// What is to be done with the record, knowing what came of deleting the
    /// worktree: it is cleared only after success.
    pub fn remove(self, deleted: Result<(), IoError>) -> (next: PendingRemoval)
        ensures
            match deleted {
                Ok(()) => next matches PendingRemoval::ClearRecord(clearing) && clearing.record()
                    == self@.record_path,
                Err(error) => next matches PendingRemoval::Diagnose(failed) && failed.pending()
                    == self@ && failed.error() == error@,
            },
    {
        match deleted {
            Ok(()) => PendingRemoval::ClearRecord(
                RecordClearing { record_path: self.record_path },
            ),
            Err(error) => PendingRemoval::Diagnose(FailedDeletion { pending: self, error }),
        }
    }
}

/// The name of a record is the whole name of the worktree's directory with `.json`
/// appended.
pub proof fn lemma_record_names_hold_the_whole_name(name: Seq<u8>)
    ensures
        record_name(name).len() == name.len() + 5,
        record_name(name).take(name.len() as int) == name,
        record_name(name).skip(name.len() as int) == vstd::utf8::encode_utf8(".json"@),
{
    reveal_strlit(".json");
    assert(".json"@ =~= seq!['.', 'j', 's', 'o', 'n']);
    vstd::utf8::is_ascii_chars_encode_utf8(".json"@);
    assert(record_name(name).take(name.len() as int) =~= name);
    assert(record_name(name).skip(name.len() as int) =~= vstd::utf8::encode_utf8(".json"@));
}

/// The record of a worktree stands in the directory of the preparation, under the
/// whole file name of the quarantine path with `.json` appended.
pub proof fn lemma_where_a_record_is_stored(preparation: PreparationView)
    ensures
        preparation.after_directory(Ok(())) matches Ok(writing) ==> ({
            let stored = writing.pending.record_path;
            &&& fs_path::file_name(preparation.path) is Some
            &&& fs_path::file_name(stored) == Some(
                fs_path::file_name(preparation.path)->0 + vstd::utf8::encode_utf8(".json"@),
            )
            &&& fs_path::components(stored).take(fs_path::components(stored).len() - 1)
                == fs_path::components(preparation.directory)
        }),
        fs_path::file_name(preparation.path) is Some <==> preparation.after_directory(Ok(())) is Ok,
        fs_path::file_name(preparation.path) is None ==> preparation.after_directory(Ok(()))
            == Err::<WritingView, PrepareErrorView>(PrepareErrorView::MissingFileName),
{
    if fs_path::file_name(preparation.path) is Some {
        lemma_record_path(preparation.directory, preparation.path);
        let stored = fs_path::join(
            preparation.directory,
            record_name(fs_path::file_name(preparation.path)->0),
        );
        fs_path::lemma_parent_is_the_path_without_its_last_component(stored);
    }
}

/// Worktrees whose directories have different names have different records, so that no
/// record can take the place of another.
pub proof fn lemma_different_names_have_different_records(
    one: PreparationView,
    other: PreparationView,
)
    requires
        fs_path::file_name(one.path) is Some,
        fs_path::file_name(other.path) is Some,
        fs_path::file_name(one.path) != fs_path::file_name(other.path),
    ensures
        one.after_directory(Ok(())) is Ok,
        other.after_directory(Ok(())) is Ok,
        fs_path::components(one.after_directory(Ok(()))->Ok_0.pending.record_path)
            != fs_path::components(other.after_directory(Ok(()))->Ok_0.pending.record_path),
{
    lemma_where_a_record_is_stored(one);
    lemma_where_a_record_is_stored(other);
    let extension = vstd::utf8::encode_utf8(".json"@);
    let name = fs_path::file_name(one.path)->0;
    let other_name = fs_path::file_name(other.path)->0;
    if name + extension == other_name + extension {
        assert((name + extension).len() == name.len() + extension.len());
        assert((other_name + extension).len() == other_name.len() + extension.len());
        assert((name + extension).take(name.len() as int) =~= name);
        assert((other_name + extension).take(other_name.len() as int) =~= other_name);
    }
}

/// What is pending is the quarantine path and the identity of the preparation, and the
/// record holds, byte for byte, both paths of the preparation, and the identity, and
/// nothing but what is listed here.
pub proof fn lemma_a_record_tells_of_its_preparation(preparation: PreparationView)
    ensures
        preparation.after_directory(Ok(())) matches Ok(writing) ==> ({
            &&& writing.pending.path == preparation.path
            &&& writing.pending.identity == preparation.identity
            &&& writing.record == json_record::pretty_json(preparation.members())
        }),
        ({
            let members = preparation.members();
            &&& members.dom() == set![
                "version"@,
                "original_path"@,
                "original_path_bytes"@,
                "quarantine_path"@,
                "quarantine_path_bytes"@,
                "device"@,
                "inode"@,
                "scope"@,
            ]
            &&& members["version"@] == JsonValue::Number(1)
            &&& members["original_path"@] == JsonValue::Text(
                fs_path::utf8_lossy(preparation.original),
            )
            &&& members["original_path_bytes"@] == JsonValue::Bytes(preparation.original)
            &&& members["quarantine_path"@] == JsonValue::Text(
                fs_path::utf8_lossy(preparation.path),
            )
            &&& members["quarantine_path_bytes"@] == JsonValue::Bytes(preparation.path)
            &&& members["device"@] == JsonValue::Number(preparation.identity.device)
            &&& members["inode"@] == JsonValue::Number(preparation.identity.inode)
            &&& members["scope"@] == JsonValue::Text(
                "filesystem only; Git cleanup may be incomplete; do not replay branch deletion"@,
            )
        }),
{
    lemma_record_fields(preparation.original, preparation.path, preparation.identity);
    assert(preparation.members().dom() =~= set![
        "version"@,
        "original_path"@,
        "original_path_bytes"@,
        "quarantine_path"@,
        "quarantine_path_bytes"@,
        "device"@,
        "inode"@,
        "scope"@,
    ]);
}

/// A preparation that cannot create its directory fails with that error, whatever the
/// path is; one that cannot store its record fails with that error; and otherwise what
/// was to be stored is pending.
pub proof fn lemma_file_errors_end_a_preparation(
    preparation: PreparationView,
    writing: WritingView,
    error: IoErrorView,
)
    ensures
        preparation.after_directory(Err(error)) == Err::<WritingView, PrepareErrorView>(
            PrepareErrorView::NoDirectory(error),
        ),
        writing.after_write(Err(error)) == Err::<PendingView, PrepareErrorView>(
            PrepareErrorView::NotPersisted(error),
        ),
        writing.after_write(Ok(())) == Ok::<PendingView, PrepareErrorView>(writing.pending),
        PrepareErrorView::MissingFileName.message() == Some("Quarantine path has no filename"@),
        PrepareErrorView::NotPersisted(error).message() == Some(
            "Failed to persist pending cleanup before quarantine"@,
        ),
        PrepareErrorView::NoDirectory(error).message() is None,
{
}

/// Records are kept in the directory `pending-cleanup` of the state directory.
pub proof fn lemma_where_records_are_kept(state_dir: Seq<u8>)
    ensures
        fs_path::file_name(record_directory(state_dir)) == Some(
            vstd::utf8::encode_utf8("pending-cleanup"@),
        ),
        fs_path::components(record_directory(state_dir)) == fs_path::components(state_dir).push(
            fs_path::Component::Name(vstd::utf8::encode_utf8("pending-cleanup"@)),
        ),
{
    let name = vstd::utf8::encode_utf8("pending-cleanup"@);
    reveal_strlit("pending-cleanup");
    assert("pending-cleanup"@ =~= seq![
        'p',
        'e',
        'n',
        'd',
        'i',
        'n',
        'g',
        '-',
        'c',
        'l',
        'e',
        'a',
        'n',
        'u',
        'p',
    ]);
    vstd::utf8::is_ascii_chars_encode_utf8("pending-cleanup"@);
    assert(name.len() == 15);
    assert(!name.contains(0x2f)) by {
        assert forall|k: int| 0 <= k < name.len() implies name[k] != 0x2f by {
            assert(name[k] == "pending-cleanup"@[k] as u8);
        }
    }
    fs_path::lemma_join_components(state_dir, name);
    fs_path::lemma_join_then_split(state_dir, name);
}

/// How a deletion that failed is explained, and how the errors of a cleanup read.
pub proof fn lemma_messages_of_cleanup_errors(
    pending: PendingView,
    error: IoErrorView,
    snapshot: Seq<char>,
    context: Seq<char>,
)
    ensures
        failure_context(pending, error, snapshot) == "Failed to remove quarantined worktree "@
            + fs_path::utf8_lossy(pending.path) + " (kind="@ + error.kind + ", errno="@ + (
        match error.errno {
            Some(number) => "Some("@ + text::signed_decimal(number as int) + ")"@,
            None => "None"@,
        }) + "); pending cleanup record retained at "@ + fs_path::utf8_lossy(pending.record_path)
            + "; "@ + snapshot,
        (CleanupErrorView::NotDeleted { context, error }).messages() == seq![
            context,
            error.message,
        ],
        (CleanupErrorView::RecordNotCleared { error }).messages() == seq![
            "Worktree deleted, but failed to clear pending cleanup record"@,
            error.message,
        ],
{
}

} // verus!
