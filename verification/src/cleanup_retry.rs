//! Retrying a deletion that fails because a directory is not empty yet.
//!
//! Times are in nanoseconds since the first attempt.

use crate::failures;
use crate::failures::{IoError, IoErrorView};
use vstd::prelude::*;

verus! {

broadcast use vstd::string::group_string_axioms;

/// How long a deletion is retried.
pub const RETRY_TIMEOUT: u128 = 5_000_000_000;

/// The first pause between two attempts.
pub const INITIAL_BACKOFF: u128 = 50_000_000;

/// The longest pause between two attempts.
pub const MAX_BACKOFF: u128 = 500_000_000;

/// Where retrying stands: the deadline, and the next pause.
pub struct Retry {
    timeout: u128,
    backoff: u128,
}

/// What a retry holds.
pub struct RetryView {
    pub timeout: nat,
    pub backoff: nat,
}

impl View for Retry {
    type V = RetryView;

    closed spec fn view(&self) -> RetryView {
        RetryView { timeout: self.timeout as nat, backoff: self.backoff as nat }
    }
}

/// What follows an attempt.
pub enum Attempted {
    /// Retrying has ended.
    Finished(Result<(), IoError>),
    /// Pause before the next attempt.
    Pause(IoError),
}

/// What follows a pause.
pub enum Resumed {
    /// Retrying has ended.
    Finished(Result<(), IoError>),
    /// Attempt it once more.
    Again(Retry),
}

/// What the step after an attempt holds.
pub enum AttemptedView {
    Finished(Result<(), IoErrorView>),
    Pause(IoErrorView),
}

/// What the step after a pause holds.
pub enum ResumedView {
    Finished(Result<(), IoErrorView>),
    Again(RetryView),
}

impl View for Attempted {
    type V = AttemptedView;

    open spec fn view(&self) -> AttemptedView {
        match *self {
            Attempted::Finished(result) => AttemptedView::Finished(failures::outcome_view(result)),
            Attempted::Pause(error) => AttemptedView::Pause(error@),
        }
    }
}

impl View for Resumed {
    type V = ResumedView;

    open spec fn view(&self) -> ResumedView {
        match *self {
            Resumed::Finished(result) => ResumedView::Finished(failures::outcome_view(result)),
            Resumed::Again(retry) => ResumedView::Again(retry@),
        }
    }
}

/// The smaller of two times.
pub open spec fn earlier(a: nat, b: nat) -> nat {
    if a <= b {
        a
    } else {
        b
    }
}

impl RetryView {
    /// The pause stays between its bounds.
    pub open spec fn is_valid(self) -> bool {
        INITIAL_BACKOFF <= self.backoff <= MAX_BACKOFF
    }

    /// Success, any error but that of a directory that is not empty, and an error
    /// at or after the deadline all end the retrying.
    pub open spec fn after_attempt(
        self,
        result: Result<(), IoErrorView>,
        elapsed: nat,
    ) -> AttemptedView {
        match result {
            Ok(_) => AttemptedView::Finished(result),
            Err(error) => if error.kind != "DirectoryNotEmpty"@ || elapsed >= self.timeout {
                AttemptedView::Finished(Err(error))
            } else {
                AttemptedView::Pause(error)
            },
        }
    }

    /// How long to pause: no longer than until the deadline.
    pub open spec fn pause(self, elapsed: nat) -> nat {
        if elapsed >= self.timeout {
            0
        } else {
            earlier(self.backoff, (self.timeout - elapsed) as nat)
        }
    }

    /// After a pause there is another attempt, unless the deadline has passed; the
    /// pause after it is twice as long, up to its limit.
    pub open spec fn after_pause(self, error: IoErrorView, elapsed: nat) -> ResumedView {
        if elapsed >= self.timeout {
            ResumedView::Finished(Err(error))
        } else {
            ResumedView::Again(
                RetryView {
                    timeout: self.timeout,
                    backoff: earlier(2 * self.backoff, MAX_BACKOFF as nat),
                },
            )
        }
    }
}

/// How retrying begins.
pub open spec fn begin(timeout: nat) -> RetryView {
    RetryView { timeout, backoff: INITIAL_BACKOFF as nat }
}

impl Retry {
    /// The pause stays between its bounds.
    #[verifier::type_invariant]
    spec fn pause_is_bounded(self) -> bool {
        INITIAL_BACKOFF <= self.backoff <= MAX_BACKOFF
    }

    /// Begin to retry a deletion for this long.
    pub fn directory_not_empty(timeout: u128) -> (retry: Retry)
        ensures
            retry@ == begin(timeout as nat),
            retry@.is_valid(),
    {
        Retry { timeout, backoff: INITIAL_BACKOFF }
    }

    /// What follows an attempt that ended with this result at this time.
    pub fn after_attempt(&self, result: Result<(), IoError>, elapsed: u128) -> (next: Attempted)
        ensures
            next@ == self@.after_attempt(failures::outcome_view(result), elapsed as nat),
    {
        match result {
            Ok(()) => Attempted::Finished(Ok(())),
            Err(error) => {
                if !error.kind.is("DirectoryNotEmpty") || elapsed >= self.timeout {
                    Attempted::Finished(Err(error))
                } else {
                    Attempted::Pause(error)
                }
            },
        }
    }

    /// How long to pause from this time on.
    pub fn pause(&self, elapsed: u128) -> (pause: u128)
        ensures
            pause == self@.pause(elapsed as nat),
    {
        if elapsed >= self.timeout {
            0
        } else if self.backoff <= self.timeout - elapsed {
            self.backoff
        } else {
            self.timeout - elapsed
        }
    }

    /// What follows the pause after this error, at this time.
    pub fn after_pause(self, error: IoError, elapsed: u128) -> (next: Resumed)
        ensures
            next@ == self@.after_pause(error@, elapsed as nat),
            self@.is_valid(),
            next matches Resumed::Again(retry) ==> retry@.is_valid(),
    {
        proof {
            use_type_invariant(&self);
        }
        if elapsed >= self.timeout {
            Resumed::Finished(Err(error))
        } else {
            let doubled: u128 = self.backoff * 2;
            let backoff: u128 = if doubled <= MAX_BACKOFF {
                doubled
            } else {
                MAX_BACKOFF
            };
            Resumed::Again(Retry { timeout: self.timeout, backoff })
        }
    }
}

/// One attempt as it went: its result, and the times at which the clock was read
/// after it, before the pause, and after the pause.
pub struct Turn {
    pub result: Result<(), IoErrorView>,
    pub ended: nat,
    pub paused: nat,
    pub resumed: nat,
}

/// The outcome of retrying over these turns; `None` if another attempt follows
/// them.
pub open spec fn outcome(retry: RetryView, turns: Seq<Turn>) -> Option<Result<(), IoErrorView>>
    decreases turns.len(),
{
    if turns.len() == 0 {
        None
    } else {
        match retry.after_attempt(turns[0].result, turns[0].ended) {
            AttemptedView::Finished(result) => Some(result),
            AttemptedView::Pause(error) => match retry.after_pause(error, turns[0].resumed) {
                ResumedView::Finished(result) => Some(result),
                ResumedView::Again(next) => outcome(next, turns.drop_first()),
            },
        }
    }
}

/// How many attempts are made over these turns.
pub open spec fn attempts(retry: RetryView, turns: Seq<Turn>) -> nat
    decreases turns.len(),
{
    if turns.len() == 0 {
        0
    } else {
        match retry.after_attempt(turns[0].result, turns[0].ended) {
            AttemptedView::Finished(result) => 1,
            AttemptedView::Pause(error) => match retry.after_pause(error, turns[0].resumed) {
                ResumedView::Finished(result) => 1,
                ResumedView::Again(next) => 1 + attempts(next, turns.drop_first()),
            },
        }
    }
}

/// Whether a turn leads to another one: its attempt failed because the directory
/// was not empty, and the deadline had passed neither then nor after the pause.
pub open spec fn leads_on(turn: Turn, timeout: nat) -> bool {
    &&& turn.result is Err
    &&& turn.result->Err_0.kind == "DirectoryNotEmpty"@
    &&& turn.ended < timeout
    &&& turn.resumed < timeout
}

/// The outcome is that of the last attempt; every attempt before it failed on a
/// directory that was not empty, before the deadline. As long as that is how every
/// attempt goes, there is another one.
pub proof fn lemma_outcome_is_that_of_the_last_attempt(retry: RetryView, turns: Seq<Turn>)
    ensures
        attempts(retry, turns) <= turns.len(),
        forall|i: int|
            0 <= i < attempts(retry, turns) - 1 ==> leads_on(#[trigger] turns[i], retry.timeout),
        match outcome(retry, turns) {
            Some(result) => attempts(retry, turns) > 0 && result == turns[attempts(retry, turns)
                - 1].result && !leads_on(turns[attempts(retry, turns) - 1], retry.timeout),
            None => attempts(retry, turns) == turns.len() && (forall|i: int|
                0 <= i < turns.len() ==> leads_on(#[trigger] turns[i], retry.timeout)),
        },
    decreases turns.len(),
{
    if turns.len() > 0 {
        match retry.after_attempt(turns[0].result, turns[0].ended) {
            AttemptedView::Finished(result) => {},
            AttemptedView::Pause(error) => match retry.after_pause(error, turns[0].resumed) {
                ResumedView::Finished(result) => {},
                ResumedView::Again(next) => {
                    let rest = turns.drop_first();
                    lemma_outcome_is_that_of_the_last_attempt(next, rest);
                    assert forall|i: int| 0 <= i < attempts(retry, turns) - 1 implies leads_on(
                        #[trigger] turns[i],
                        retry.timeout,
                    ) by {
                        if i > 0 {
                            assert(turns[i] == rest[i - 1]);
                        }
                    }
                    if outcome(retry, turns) is Some {
                        assert(turns[attempts(retry, turns) - 1] == rest[attempts(next, rest) - 1]);
                    } else {
                        assert forall|i: int| 0 <= i < turns.len() implies leads_on(
                            #[trigger] turns[i],
                            retry.timeout,
                        ) by {
                            if i > 0 {
                                assert(turns[i] == rest[i - 1]);
                            }
                        }
                    }
                },
            },
        }
    }
}

/// A pause that begins before the deadline ends by the deadline, and no pause is
/// longer than the limit.
pub proof fn lemma_pauses_end_by_the_deadline(retry: RetryView, elapsed: nat)
    requires
        retry.is_valid(),
    ensures
        elapsed <= retry.timeout ==> elapsed + retry.pause(elapsed) <= retry.timeout,
        retry.pause(elapsed) <= MAX_BACKOFF,
        elapsed < retry.timeout ==> retry.pause(elapsed) > 0,
{
}

/// The backoff after this many pauses.
pub open spec fn backoff_after(pauses: nat) -> nat
    decreases pauses,
{
    if pauses == 0 {
        INITIAL_BACKOFF as nat
    } else {
        earlier(2 * backoff_after((pauses - 1) as nat), MAX_BACKOFF as nat)
    }
}

/// Retrying after this many pauses.
pub open spec fn retry_after(timeout: nat, pauses: nat) -> RetryView {
    RetryView { timeout, backoff: backoff_after(pauses) }
}

/// Each pause before the deadline takes the backoff one step further.
pub proof fn lemma_backoff_steps(timeout: nat, pauses: nat, error: IoErrorView, elapsed: nat)
    requires
        elapsed < timeout,
    ensures
        begin(timeout) == retry_after(timeout, 0),
        retry_after(timeout, pauses).after_pause(error, elapsed) == ResumedView::Again(
            retry_after(timeout, pauses + 1),
        ),
{
}

/// The backoff doubles with each pause until it reaches its limit.
pub proof fn lemma_backoff_doubles_up_to_its_limit(pauses: nat)
    ensures
        backoff_after(pauses) == earlier(
            INITIAL_BACKOFF as nat * vstd::arithmetic::power2::pow2(pauses),
            MAX_BACKOFF as nat,
        ),
        retry_after(0, pauses).is_valid(),
    decreases pauses,
{
    if pauses == 0 {
        vstd::arithmetic::power2::lemma2_to64();
    } else {
        lemma_backoff_doubles_up_to_its_limit((pauses - 1) as nat);
        vstd::arithmetic::power2::lemma_pow2_unfold(pauses);
    }
}

/// A recursive deletion is retried only if it failed, and every failure in it but
/// those on what was already gone was that of a directory that is not empty: one
/// permanent failure ends the retrying.
pub proof fn lemma_only_transient_failures_are_retried(
    retry: RetryView,
    results: Seq<(Seq<char>, Result<(), IoErrorView>)>,
    elapsed: nat,
)
    ensures
        ({
            let deleted = failures::finished(
                failures::recorded_all(failures::no_failures(), results),
            );
            retry.after_attempt(deleted, elapsed) is Pause <==> failures::counted(results) > 0
                && failures::first_permanent_kind(results) is None && elapsed < retry.timeout
        }),
{
    failures::lemma_failures_are_counted_and_not_masked(results);
    failures::lemma_permanent_kind(results);
}

/// An attempt is followed by a pause exactly if it failed on a directory that is not
/// empty before the deadline; otherwise its own result is the outcome.
pub proof fn lemma_only_a_directory_that_is_not_empty_is_waited_for(
    retry: RetryView,
    result: Result<(), IoErrorView>,
    elapsed: nat,
)
    ensures
        match retry.after_attempt(result, elapsed) {
            AttemptedView::Pause(error) => result == Err::<(), IoErrorView>(error) && error.kind
                == "DirectoryNotEmpty"@ && elapsed < retry.timeout,
            AttemptedView::Finished(outcome) => outcome == result && (result is Ok
                || result->Err_0.kind != "DirectoryNotEmpty"@ || elapsed >= retry.timeout),
        },
{
}

/// A pause lasts for the backoff, or until the deadline if that is sooner. After it
/// the error is the outcome if the deadline has come; otherwise there is another
/// attempt with the same deadline, and the next pause is twice as long, but half a
/// second at most. The first pause lasts for a twentieth of a second.
pub proof fn lemma_how_long_pauses_last(
    timeout: nat,
    retry: RetryView,
    error: IoErrorView,
    elapsed: nat,
)
    ensures
        begin(timeout).timeout == timeout,
        begin(timeout).backoff == 50_000_000,
        retry.pause(elapsed) <= retry.backoff,
        elapsed + retry.backoff <= retry.timeout ==> retry.pause(elapsed) == retry.backoff,
        elapsed <= retry.timeout < elapsed + retry.backoff ==> elapsed + retry.pause(elapsed)
            == retry.timeout,
        elapsed > retry.timeout ==> retry.pause(elapsed) == 0,
        match retry.after_pause(error, elapsed) {
            ResumedView::Finished(outcome) => elapsed >= retry.timeout && outcome == Err::<
                (),
                IoErrorView,
            >(error),
            ResumedView::Again(next) => {
                &&& elapsed < retry.timeout
                &&& next.timeout == retry.timeout
                &&& 2 * retry.backoff <= 500_000_000 ==> next.backoff == 2 * retry.backoff
                &&& 2 * retry.backoff > 500_000_000 ==> next.backoff == 500_000_000
            },
        },
        RETRY_TIMEOUT == 5_000_000_000,
{
}

} // verus!
