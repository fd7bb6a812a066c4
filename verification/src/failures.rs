//! File operation errors, and the failures collected over a deletion.

use crate::text;
use vstd::prelude::*;

verus! {

broadcast use vstd::string::group_string_axioms;

/// The most bytes of error details that are kept.
pub const MAX_ERROR_BYTES: usize = 16384;

/// The kind of a file operation error, known by the name of its
/// `std::io::ErrorKind`.
pub struct ErrorKind {
    name: String,
}

impl View for ErrorKind {
    type V = Seq<char>;

    closed spec fn view(&self) -> Seq<char> {
        self.name@
    }
}

impl Clone for ErrorKind {
    fn clone(&self) -> (copy: Self)
        ensures
            copy@ == self@,
    {
        ErrorKind { name: self.name.clone() }
    }
}

impl ErrorKind {
    /// The kind of this name.
    pub fn named(name: &str) -> (kind: ErrorKind)
        ensures
            kind@ == name@,
    {
        ErrorKind { name: name.to_owned() }
    }

    /// The name of the kind.
    pub fn name(&self) -> (name: &str)
        ensures
            name@ == self@,
    {
        self.name.as_str()
    }

    /// Whether the kind has this name.
    pub fn is(&self, name: &str) -> (same: bool)
        ensures
            same == (self@ == name@),
    {
        text::same_text(self.name.as_str(), name)
    }
}

/// A failed file operation.
pub struct IoError {
    pub kind: ErrorKind,
    pub errno: Option<i32>,
    pub message: String,
}

/// What a file operation error holds.
pub struct IoErrorView {
    pub kind: Seq<char>,
    pub errno: Option<i32>,
    pub message: Seq<char>,
}

impl View for IoError {
    type V = IoErrorView;

    open spec fn view(&self) -> IoErrorView {
        IoErrorView { kind: self.kind@, errno: self.errno, message: self.message@ }
    }
}

/// An error that no system call reported.
pub open spec fn other_error(message: Seq<char>) -> IoErrorView {
    IoErrorView { kind: "Other"@, errno: None, message }
}

impl IoError {
    /// An error that no system call reported.
    pub fn other(message: &str) -> (error: IoError)
        ensures
            error@ == other_error(message@),
    {
        IoError { kind: ErrorKind::named("Other"), errno: None, message: message.to_owned() }
    }
}

/// What the result of a file operation holds.
pub open spec fn outcome_view(result: Result<(), IoError>) -> Result<(), IoErrorView> {
    match result {
        Ok(()) => Ok(()),
        Err(error) => Err(error@),
    }
}

/// How an error number reads.
pub open spec fn errno_text(errno: Option<i32>) -> Seq<char> {
    match errno {
        Some(number) => "Some("@ + text::signed_decimal(number as int) + ")"@,
        None => "None"@,
    }
}

/// Write an error number.
pub fn write_errno(errno: Option<i32>) -> (s: String)
    ensures
        s@ == errno_text(errno),
{
    match errno {
        Some(number) => {
            let mut s = "Some(".to_owned();
            s.append(text::signed_decimal_text(number).as_str());
            s.append(")");
            s
        },
        None => "None".to_owned(),
    }
}

/// The failures of a recursive deletion. Diagnostics stay bounded, while it is
/// remembered whether any error was other than transient: the `DirectoryNotEmpty`
/// of an ancestor must not hide the permanent error of a child.
pub struct Failures {
    count: usize,
    permanent_kind: Option<ErrorKind>,
    details: String,
}

/// What the collected failures hold.
pub struct FailuresView {
    pub count: nat,
    pub permanent_kind: Option<Seq<char>>,
    pub details: Seq<char>,
}

impl View for Failures {
    type V = FailuresView;

    closed spec fn view(&self) -> FailuresView {
        FailuresView {
            count: self.count as nat,
            permanent_kind: match self.permanent_kind {
                Some(kind) => Some(kind@),
                None => None,
            },
            details: self.details@,
        }
    }
}

/// No failures.
pub open spec fn no_failures() -> FailuresView {
    FailuresView { count: 0, permanent_kind: None, details: seq![] }
}

/// The number of bytes of a text.
pub open spec fn byte_length(s: Seq<char>) -> nat {
    vstd::utf8::encode_utf8(s).len()
}

/// The number of bytes of a character.
pub open spec fn char_width(c: char) -> nat {
    vstd::utf8::encode_scalar(c as u32).len()
}

/// How many characters of a text fit into this many bytes.
pub open spec fn fitting(s: Seq<char>, room: int) -> int
    decreases s.len(),
{
    if s.len() == 0 || char_width(s[0]) > room {
        0
    } else {
        1 + fitting(s.drop_first(), room - char_width(s[0]))
    }
}

/// How one failure reads.
pub open spec fn failure_line(label: Seq<char>, error: IoErrorView) -> Seq<char> {
    "\n"@ + label + ": "@ + error.message + " (errno="@ + errno_text(error.errno) + ")"@
}

/// Details with one more line, cut where they would exceed their bound.
pub open spec fn extended(details: Seq<char>, line: Seq<char>) -> Seq<char> {
    if byte_length(details) < MAX_ERROR_BYTES {
        details + line.take(fitting(line, MAX_ERROR_BYTES - byte_length(details)))
    } else {
        details
    }
}

/// Whether a result counts as a failure: what is already gone does not.
pub open spec fn is_counted(result: Result<(), IoErrorView>) -> bool {
    result is Err && result->Err_0.kind != "NotFound"@
}

/// Whether a failure is permanent: only a directory that is not empty may still
/// become so.
pub open spec fn is_permanent(result: Result<(), IoErrorView>) -> bool {
    is_counted(result) && result->Err_0.kind != "DirectoryNotEmpty"@
}

/// The failures once one more result is recorded.
pub open spec fn recorded(
    failures: FailuresView,
    label: Seq<char>,
    result: Result<(), IoErrorView>,
) -> FailuresView {
    if is_counted(result) {
        FailuresView {
            count: failures.count + 1,
            permanent_kind: if failures.permanent_kind is None && is_permanent(result) {
                Some(result->Err_0.kind)
            } else {
                failures.permanent_kind
            },
            details: extended(failures.details, failure_line(label, result->Err_0)),
        }
    } else {
        failures
    }
}

/// The note that details were cut.
pub open spec fn truncation_note(details: Seq<char>) -> Seq<char> {
    if byte_length(details) >= MAX_ERROR_BYTES {
        " [error details truncated]"@
    } else {
        seq![]
    }
}

/// The outcome that collected failures amount to.
pub open spec fn finished(failures: FailuresView) -> Result<(), IoErrorView> {
    if failures.count == 0 {
        Ok(())
    } else {
        Err(
            IoErrorView {
                kind: match failures.permanent_kind {
                    Some(kind) => kind,
                    None => "DirectoryNotEmpty"@,
                },
                errno: None,
                message: "Recursive deletion encountered "@ + text::decimal(failures.count)
                    + " errors:"@ + failures.details + truncation_note(failures.details),
            },
        )
    }
}

/// The encoding of a concatenation is the concatenation of the encodings.
pub proof fn lemma_encode_concat(a: Seq<char>, b: Seq<char>)
    ensures
        vstd::utf8::encode_utf8(a + b) == vstd::utf8::encode_utf8(a) + vstd::utf8::encode_utf8(b),
    decreases a.len(),
{
    if a.len() == 0 {
        assert(a + b =~= b);
        assert(vstd::utf8::encode_utf8(a) + vstd::utf8::encode_utf8(b) =~= vstd::utf8::encode_utf8(
            b,
        ));
    } else {
        assert((a + b).drop_first() =~= a.drop_first() + b);
        lemma_encode_concat(a.drop_first(), b);
        assert(vstd::utf8::encode_utf8(a + b) =~= vstd::utf8::encode_utf8(a)
            + vstd::utf8::encode_utf8(b));
    }
}

/// The characters that fit end at the last boundary within the room.
proof fn lemma_fitting(s: Seq<char>, room: int)
    requires
        room >= 0,
    ensures
        0 <= fitting(s, room) <= s.len(),
        byte_length(s.take(fitting(s, room))) <= room,
        vstd::utf8::is_char_boundary(
            vstd::utf8::encode_utf8(s),
            byte_length(s.take(fitting(s, room))) as int,
        ),
        forall|e: int|
            byte_length(s.take(fitting(s, room))) < e <= room && e <= byte_length(s)
                ==> !#[trigger] vstd::utf8::is_char_boundary(vstd::utf8::encode_utf8(s), e),
    decreases s.len(),
{
    let bytes = vstd::utf8::encode_utf8(s);
    assert(s.take(0) =~= seq![]);
    assert(vstd::utf8::encode_utf8(Seq::<char>::empty()).len() == 0);
    vstd::utf8::encode_utf8_valid_utf8(s);
    if s.len() > 0 {
        let width = char_width(s[0]) as int;
        let rest = s.drop_first();
        vstd::utf8::encode_utf8_valid_utf8(rest);
        vstd::utf8::encode_utf8_first_scalar(s);
        assert(vstd::utf8::pop_first_scalar(bytes) =~= vstd::utf8::encode_utf8(rest));
        if width <= room {
            lemma_fitting(rest, room - width);
            let n = fitting(s, room);
            assert(s.take(n).drop_first() =~= rest.take(n - 1));
            assert(byte_length(s.take(n)) == width + byte_length(rest.take(n - 1)));
            assert forall|e: int|
                byte_length(s.take(n)) < e <= room && e <= byte_length(s) implies !#[trigger]
            vstd::utf8::is_char_boundary(bytes, e) by {
                assert(!vstd::utf8::is_char_boundary(vstd::utf8::encode_utf8(rest), e - width));
            }
        } else {
            assert forall|e: int| 0 < e <= room && e <= byte_length(s) implies !#[trigger]
            vstd::utf8::is_char_boundary(bytes, e) by {
                assert(!vstd::utf8::is_char_boundary(vstd::utf8::encode_utf8(rest), e - width));
            }
        }
    }
}

impl Default for Failures {
    /// No failures yet.
    fn default() -> (failures: Failures)
        ensures
            failures@ == no_failures(),
    {
        let failures = Failures { count: 0, permanent_kind: None, details: String::new() };
        assert(failures@.details =~= seq![]);
        failures
    }
}

impl Failures {
    /// The details collected so far.
    pub fn details(&self) -> (details: &str)
        ensures
            details@ == self@.details,
    {
        self.details.as_str()
    }

    /// Record the result of an operation on the entry that the label names. What
    /// was not found counts as done.
    pub fn record(&mut self, label: &str, result: Result<(), IoError>)
        requires
            old(self)@.count < usize::MAX,
        ensures
            final(self)@ == recorded(old(self)@, label@, outcome_view(result)),
    {
        let error = match result {
            Ok(()) => {
                return ;
            },
            Err(error) => error,
        };
        if error.kind.is("NotFound") {
            return ;
        }
        self.count = self.count + 1;
        if !error.kind.is("DirectoryNotEmpty") && self.permanent_kind.is_none() {
            self.permanent_kind = Some(error.kind.clone());
        }
        let used = self.details.as_str().as_bytes().len();
        if used < MAX_ERROR_BYTES {
            let mut line = "\n".to_owned();
            line.append(label);
            line.append(": ");
            line.append(error.message.as_str());
            line.append(" (errno=");
            line.append(write_errno(error.errno).as_str());
            line.append(")");
            let room: usize = MAX_ERROR_BYTES - used;
            let length = line.as_str().as_bytes().len();
            let mut end: usize = if length < room {
                length
            } else {
                room
            };
            let ghost cap = end as int;
            let ghost kept = line@.take(fitting(line@, room as int));
            proof {
                lemma_fitting(line@, room as int);
                lemma_encode_concat(kept, line@.skip(kept.len() as int));
                assert(kept + line@.skip(kept.len() as int) =~= line@);
            }
            while !line.as_str().is_char_boundary(end)
                invariant
                    byte_length(kept) <= end <= cap,
                    cap <= room,
                    cap <= byte_length(line@),
                    vstd::utf8::is_char_boundary(
                        vstd::utf8::encode_utf8(line@),
                        byte_length(kept) as int,
                    ),
                decreases end,
            {
                end -= 1;
            }
            proof {
                assert(end == byte_length(kept));
            }
            let (head, tail) = line.as_str().split_at(end);
            proof {
                assert(vstd::utf8::encode_utf8(line@).subrange(0, end as int)
                    =~= vstd::utf8::encode_utf8(kept));
                text::lemma_encoding_is_injective(head@, kept);
            }
            self.details.append(head);
        }
    }

    /// What the recorded failures amount to: success if there were none, and
    /// otherwise an error of the first permanent kind.
    pub fn finish(self) -> (result: Result<(), IoError>)
        ensures
            outcome_view(result) == finished(self@),
    {
        if self.count == 0 {
            return Ok(());
        }
        let kind = match self.permanent_kind {
            Some(kind) => kind,
            None => ErrorKind::named("DirectoryNotEmpty"),
        };
        let mut message = "Recursive deletion encountered ".to_owned();
        message.append(text::decimal_text(self.count as u64).as_str());
        message.append(" errors:");
        message.append(self.details.as_str());
        if self.details.as_str().as_bytes().len() >= MAX_ERROR_BYTES {
            message.append(" [error details truncated]");
        } else {
            assert(message@ + seq![] =~= message@);
        }
        Err(IoError { kind, errno: None, message })
    }
}

/// The failures once all of these results are recorded, in their order.
pub open spec fn recorded_all(
    failures: FailuresView,
    results: Seq<(Seq<char>, Result<(), IoErrorView>)>,
) -> FailuresView
    decreases results.len(),
{
    if results.len() == 0 {
        failures
    } else {
        let (label, result) = results.last();
        recorded(recorded_all(failures, results.drop_last()), label, result)
    }
}

/// Recording one list of results and then another records both.
pub proof fn lemma_recorded_all_concat(
    failures: FailuresView,
    first: Seq<(Seq<char>, Result<(), IoErrorView>)>,
    second: Seq<(Seq<char>, Result<(), IoErrorView>)>,
)
    ensures
        recorded_all(recorded_all(failures, first), second) == recorded_all(
            failures,
            first + second,
        ),
    decreases second.len(),
{
    if second.len() == 0 {
        assert(first + second =~= first);
    } else {
        lemma_recorded_all_concat(failures, first, second.drop_last());
        assert((first + second).drop_last() =~= first + second.drop_last());
    }
}

/// How many of these results count as failures.
pub open spec fn counted(results: Seq<(Seq<char>, Result<(), IoErrorView>)>) -> nat
    decreases results.len(),
{
    if results.len() == 0 {
        0
    } else {
        counted(results.drop_last()) + if is_counted(results.last().1) {
            1nat
        } else {
            0nat
        }
    }
}

/// Two lists of results have as many failures as both of them together.
pub proof fn lemma_counted_concat(
    first: Seq<(Seq<char>, Result<(), IoErrorView>)>,
    second: Seq<(Seq<char>, Result<(), IoErrorView>)>,
)
    ensures
        counted(first + second) == counted(first) + counted(second),
    decreases second.len(),
{
    if second.len() == 0 {
        assert(first + second =~= first);
    } else {
        lemma_counted_concat(first, second.drop_last());
        assert((first + second).drop_last() =~= first + second.drop_last());
    }
}

/// The kind of the first permanent failure among these results.
pub open spec fn first_permanent_kind(
    results: Seq<(Seq<char>, Result<(), IoErrorView>)>,
) -> Option<Seq<char>>
    decreases results.len(),
{
    if results.len() == 0 {
        None
    } else if is_permanent(results[0].1) {
        Some(results[0].1->Err_0.kind)
    } else {
        first_permanent_kind(results.drop_first())
    }
}

proof fn lemma_first_permanent_kind_of_last(results: Seq<(Seq<char>, Result<(), IoErrorView>)>)
    requires
        results.len() > 0,
    ensures
        first_permanent_kind(results) == (match first_permanent_kind(results.drop_last()) {
            Some(kind) => Some(kind),
            None => if is_permanent(results.last().1) {
                Some(results.last().1->Err_0.kind)
            } else {
                None
            },
        }),
    decreases results.len(),
{
    if results.len() == 1 {
        assert(first_permanent_kind(results.drop_first()) is None);
    } else {
        let rest = results.drop_first();
        assert(rest.drop_last() =~= results.drop_last().drop_first());
        if !is_permanent(results[0].1) {
            lemma_first_permanent_kind_of_last(rest);
        }
    }
}

/// Every failure is counted but those of entries already gone, and the kind of
/// the first permanent failure is kept, whatever came before or after it.
pub proof fn lemma_failures_are_counted_and_not_masked(
    results: Seq<(Seq<char>, Result<(), IoErrorView>)>,
)
    ensures
        recorded_all(no_failures(), results).count == counted(results),
        recorded_all(no_failures(), results).permanent_kind == first_permanent_kind(results),
        match finished(recorded_all(no_failures(), results)) {
            Ok(()) => counted(results) == 0,
            Err(error) => counted(results) > 0 && error.kind == (match first_permanent_kind(
                results,
            ) {
                Some(kind) => kind,
                None => "DirectoryNotEmpty"@,
            }),
        },
    decreases results.len(),
{
    if results.len() > 0 {
        lemma_failures_are_counted_and_not_masked(results.drop_last());
        lemma_first_permanent_kind_of_last(results);
    }
}

/// The kind of a permanent failure is neither that of a directory that is not
/// empty nor that of an entry already gone.
pub proof fn lemma_permanent_kind(results: Seq<(Seq<char>, Result<(), IoErrorView>)>)
    ensures
        first_permanent_kind(results) matches Some(kind) ==> kind != "DirectoryNotEmpty"@ && kind
            != "NotFound"@,
    decreases results.len(),
{
    if results.len() > 0 {
        lemma_permanent_kind(results.drop_first());
    }
}

/// The details never exceed their bound.
pub proof fn lemma_details_stay_bounded(
    failures: FailuresView,
    label: Seq<char>,
    result: Result<(), IoErrorView>,
)
    requires
        byte_length(failures.details) <= MAX_ERROR_BYTES,
    ensures
        byte_length(recorded(failures, label, result).details) <= MAX_ERROR_BYTES,
{
    if is_counted(result) && byte_length(failures.details) < MAX_ERROR_BYTES {
        let line = failure_line(label, result->Err_0);
        let room = MAX_ERROR_BYTES - byte_length(failures.details);
        lemma_fitting(line, room);
        lemma_encode_concat(failures.details, line.take(fitting(line, room)));
    }
}

/// However many failures are recorded, their details stay bounded.
pub proof fn lemma_all_details_stay_bounded(results: Seq<(Seq<char>, Result<(), IoErrorView>)>)
    ensures
        byte_length(recorded_all(no_failures(), results).details) <= MAX_ERROR_BYTES,
    decreases results.len(),
{
    if results.len() > 0 {
        lemma_all_details_stay_bounded(results.drop_last());
        lemma_details_stay_bounded(
            recorded_all(no_failures(), results.drop_last()),
            results.last().0,
            results.last().1,
        );
    }
}

/// One character more than those that fit is too much.
proof fn lemma_no_more_fits(s: Seq<char>, room: int)
    requires
        room >= 0,
    ensures
        fitting(s, room) < s.len() ==> byte_length(s.take(fitting(s, room) + 1)) > room,
    decreases s.len(),
{
    lemma_fitting(s, room);
    if s.len() > 0 {
        let width = char_width(s[0]) as int;
        let n = fitting(s, room);
        assert(n < s.len() ==> s.take(n + 1)[0] == s[0]);
        if width <= room {
            lemma_no_more_fits(s.drop_first(), room - width);
            if n < s.len() {
                assert(s.take(n + 1).drop_first() =~= s.drop_first().take(n));
                assert(byte_length(s.take(n + 1)) == width + byte_length(s.drop_first().take(n)));
            }
        } else {
            assert(s.take(1).drop_first() =~= seq![]);
            assert(byte_length(s.take(1)) == width + byte_length(seq![]));
        }
    }
}

/// What recording a result changes. Success, and what was not found, change nothing.
/// Any other failure is counted, the first kind that is not that of a directory which
/// is not empty is kept, and a line is added to the details: all of it if they stay
/// within their bound, and otherwise as many of its characters as the bound allows.
/// How many characters are added is given back.
pub proof fn lemma_what_recording_changes(
    failures: FailuresView,
    label: Seq<char>,
    result: Result<(), IoErrorView>,
) -> (added: int)
    ensures
        ({
            let after = recorded(failures, label, result);
            match result {
                Ok(_) => after == failures,
                Err(error) => if error.kind == "NotFound"@ {
                    after == failures
                } else {
                    let line = "\n"@ + label + ": "@ + error.message + " (errno="@ + (
                    match error.errno {
                        Some(number) => "Some("@ + text::signed_decimal(number as int) + ")"@,
                        None => "None"@,
                    }) + ")"@;
                    let used = vstd::utf8::encode_utf8(failures.details).len();
                    &&& after.count == failures.count + 1
                    &&& failures.permanent_kind is Some ==> after.permanent_kind
                        == failures.permanent_kind
                    &&& failures.permanent_kind is None && error.kind == "DirectoryNotEmpty"@
                        ==> after.permanent_kind is None
                    &&& failures.permanent_kind is None && error.kind != "DirectoryNotEmpty"@
                        ==> after.permanent_kind == Some(error.kind)
                    &&& 0 <= added <= line.len()
                    &&& after.details == failures.details + line.take(added)
                    &&& used >= 16384 ==> added == 0
                    &&& used < 16384 ==> vstd::utf8::encode_utf8(after.details).len() <= 16384
                    &&& used < 16384 && added < line.len() ==> vstd::utf8::encode_utf8(
                        failures.details + line.take(added + 1),
                    ).len() > 16384
                },
            }
        }),
{
    if let Err(error) = result {
        let line = failure_line(label, error);
        let used = byte_length(failures.details);
        if used < MAX_ERROR_BYTES {
            let room = MAX_ERROR_BYTES - used;
            let added = fitting(line, room);
            lemma_fitting(line, room);
            lemma_no_more_fits(line, room);
            lemma_encode_concat(failures.details, line.take(added));
            if added < line.len() {
                lemma_encode_concat(failures.details, line.take(added + 1));
            }
            added
        } else {
            assert(failures.details + line.take(0) =~= failures.details);
            0
        }
    } else {
        0
    }
}

/// What recorded failures amount to: success if there are none; otherwise an error of
/// the kept kind, or of that of a directory which is not empty, that tells their number
/// and details, and that details are missing if their bound is reached.
pub proof fn lemma_what_failures_amount_to(failures: FailuresView)
    ensures
        match finished(failures) {
            Ok(_) => failures.count == 0,
            Err(error) => {
                &&& failures.count > 0
                &&& failures.permanent_kind matches Some(kind) ==> error.kind == kind
                &&& failures.permanent_kind is None ==> error.kind == "DirectoryNotEmpty"@
                &&& error.errno is None
                &&& vstd::utf8::encode_utf8(failures.details).len() < 16384 ==> error.message
                    == "Recursive deletion encountered "@ + text::decimal(failures.count)
                    + " errors:"@ + failures.details
                &&& vstd::utf8::encode_utf8(failures.details).len() >= 16384 ==> error.message
                    == "Recursive deletion encountered "@ + text::decimal(failures.count)
                    + " errors:"@ + failures.details + " [error details truncated]"@
            },
        },
{
    let message = "Recursive deletion encountered "@ + text::decimal(failures.count) + " errors:"@
        + failures.details;
    assert(message + seq![] =~= message);
}

/// Nothing recorded changes nothing, and one result recorded is that result recorded;
/// it counts unless it is a success or was not found.
pub proof fn lemma_recording_one_result(
    failures: FailuresView,
    label: Seq<char>,
    result: Result<(), IoErrorView>,
)
    ensures
        recorded_all(failures, seq![]) == failures,
        recorded_all(failures, seq![(label, result)]) == recorded(failures, label, result),
        counted(seq![]) == 0,
        counted(seq![(label, result)]) == (if result is Err && result->Err_0.kind != "NotFound"@ {
            1nat
        } else {
            0nat
        }),
        no_failures().count == 0,
        no_failures().permanent_kind is None,
        no_failures().details.len() == 0,
{
    let one = seq![(label, result)];
    assert(one.drop_last() =~= seq![]);
    assert(recorded_all(failures, one.drop_last()) == failures);
    assert(counted(one.drop_last()) == 0);
}

/// An error that no system call reported is of the kind `Other`, has no number, and
/// reads as its message.
pub proof fn lemma_errors_of_no_system_call(message: Seq<char>)
    ensures
        other_error(message).kind == "Other"@,
        other_error(message).errno is None,
        other_error(message).message == message,
{
}

} // verus!
