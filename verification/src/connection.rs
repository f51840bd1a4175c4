//! When to connect to the stream again, and when to give up.

use vstd::arithmetic::power2::{lemma2_to64, lemma_pow2_unfold, pow2};
use vstd::prelude::*;
use crate::clock::NANOS_PER_SECOND;

verus! {

/// The number of failed attempts in a row after which no more are made.
pub const MAX_RETRIES: u32 = 5;

/// The longest pause between two attempts, in seconds.
pub const MAX_DELAY_SECONDS: u64 = 60;

/// The time without data after which a connection is given up, in seconds.
pub const IDLE_SECONDS: i128 = 120;

/// How an attempt to connect went.
#[derive(Clone, Copy, Debug, PartialEq, Eq, Structural)]
pub enum Attempt {
    /// No answer came.
    Failed,
    /// An answer came, with this HTTP status.
    Answered(u16),
}

/// What to do after an attempt, once the stream that it opened has ended.
#[derive(Clone, Copy, Debug, PartialEq, Eq, Structural)]
pub enum Next {
    /// Wait this many seconds, then try again.
    Wait(u64),
    /// Make no more attempts.
    GiveUp,
}

/// Whether an HTTP status means success: any status from 200 to 299.
pub open spec fn is_success_status(status: u16) -> bool {
    200 <= status < 300
}

/// Whether an attempt opened the stream.
pub open spec fn opened(attempt: Attempt) -> bool {
    attempt is Answered && is_success_status(attempt->Answered_0)
}

/// The failed attempts in a row after one more attempt. They are not counted further
/// than to the number at which no more attempts are made.
pub open spec fn failures_after(failures: nat, attempt: Attempt) -> nat {
    if opened(attempt) {
        0
    } else if failures < MAX_RETRIES {
        failures + 1
    } else {
        failures
    }
}

/// What to do after so many failed attempts in a row: the pause doubles with each.
pub open spec fn next_after(failures: nat) -> Next {
    if failures >= MAX_RETRIES {
        Next::GiveUp
    } else if pow2(failures) < MAX_DELAY_SECONDS {
        Next::Wait(pow2(failures) as u64)
    } else {
        Next::Wait(MAX_DELAY_SECONDS)
    }
}

/// Why no more attempts are made.
pub fn give_up_message() -> (words: String)
    ensures
        words@ == "Maximum retry attempts reached"@,
{
    "Maximum retry attempts reached".to_string()
}

/// Whether an HTTP status means success.
pub fn is_success(status: u16) -> (answer: bool)
    ensures
        answer == is_success_status(status),
        answer <==> status >= 200 && status <= 299,
{
    200 <= status && status < 300
}

/// Whether the answer to a request for the antennas holds them: only the status 200
/// says so.
pub fn antennas_answered(status: u16) -> (answer: bool)
    ensures
        answer == (status == 200),
{
    status == 200
}

/// Whether a connection has been without data for too long, `nanos` after its last chunk.
pub fn is_idle(nanos: i128) -> (answer: bool)
    ensures
        answer == (nanos > IDLE_SECONDS * NANOS_PER_SECOND),
        answer <==> nanos > 120_000_000_000,
{
    nanos > IDLE_SECONDS * NANOS_PER_SECOND
}

/// Counts the failed attempts in a row.
#[derive(Debug)]
pub struct Reconnect {
    retry_count: u32,
}

impl View for Reconnect {
    type V = nat;

    closed spec fn view(&self) -> nat {
        self.retry_count as nat
    }
}

impl Reconnect {
    /// No attempt has been made.
    pub fn new() -> (reconnect: Reconnect)
        ensures
            reconnect@ == 0,
    {
        Reconnect { retry_count: 0 }
    }

    /// Takes in how an attempt went and says what to do next.
    pub fn next(&mut self, attempt: Attempt) -> (next: Next)
        ensures
            final(self)@ == failures_after(old(self)@, attempt),
            next == next_after(final(self)@),
    {
        let success = match attempt {
            Attempt::Failed => false,
            Attempt::Answered(status) => is_success(status),
        };
        if success {
            self.retry_count = 0;
        } else if self.retry_count < MAX_RETRIES {
            self.retry_count = self.retry_count + 1;
        }
        if self.retry_count >= MAX_RETRIES {
            return Next::GiveUp;
        }
        let mut delay: u64 = 1;
        proof {
            lemma2_to64();
        }
        for i in 0..self.retry_count
            invariant
                self.retry_count < MAX_RETRIES,
                delay == pow2(i as nat),
                delay <= 16,
        {
            proof {
                lemma2_to64();
                lemma_pow2_unfold((i + 1) as nat);
            }
            delay = delay * 2;
        }
        if delay < MAX_DELAY_SECONDS {
            Next::Wait(delay)
        } else {
            Next::Wait(MAX_DELAY_SECONDS)
        }
    }
}

/// The failed attempts that are counted after a history of attempts.
pub open spec fn counted_failures(attempts: Seq<Attempt>) -> nat
    decreases attempts.len(),
{
    if attempts.len() == 0 {
        0
    } else {
        failures_after(counted_failures(attempts.drop_last()), attempts.last())
    }
}

/// The failed attempts at the end of a history.
pub open spec fn failures_at_end(attempts: Seq<Attempt>) -> nat
    decreases attempts.len(),
{
    if attempts.len() == 0 || opened(attempts.last()) {
        0
    } else {
        failures_at_end(attempts.drop_last()) + 1
    }
}

/// The failures in a row are counted, up to the number at which no more attempts are
/// made.
proof fn lemma_counted_failures(attempts: Seq<Attempt>)
    ensures
        counted_failures(attempts) == if failures_at_end(attempts) < MAX_RETRIES {
            failures_at_end(attempts)
        } else {
            MAX_RETRIES as nat
        },
    decreases attempts.len(),
{
    if attempts.len() > 0 {
        lemma_counted_failures(attempts.drop_last());
    }
}

/// No more attempts are made exactly after five failures in a row. Before that, the
/// pause doubles with each failure in a row, from one second on; an attempt that
/// opens the stream makes it one second again.
pub proof fn law_five_failures_in_a_row_end_it(attempts: Seq<Attempt>)
    ensures
        next_after(counted_failures(attempts)) is GiveUp <==> failures_at_end(attempts) >= 5,
        failures_at_end(attempts) < 5 ==> next_after(counted_failures(attempts)) == Next::Wait(
            pow2(failures_at_end(attempts)) as u64,
        ),
        attempts.len() > 0 && opened(attempts.last()) ==> next_after(counted_failures(attempts))
            == Next::Wait(1),
{
    lemma_counted_failures(attempts);
    lemma2_to64();
}

/// The pause never reaches its upper bound: it is at most sixteen seconds.
pub proof fn law_pause_is_at_most_sixteen_seconds(failures: nat)
    ensures
        next_after(failures) matches Next::Wait(seconds) ==> 1 <= seconds <= 16,
{
    lemma2_to64();
}

/// An attempt that no answer came to, or an answer with a status outside 200 to 299, makes
/// the failures in a row one more, up to five. An answer with a status from 200 to 299 sets
/// them back to none, however many there were.
pub proof fn law_an_attempt_fails_by_its_status(failures: nat, status: u16)
    requires
        failures <= 5,
    ensures
        status < 200 || status > 299 ==> failures_after(failures, Attempt::Answered(status)) == (
        if failures == 5 {
            5
        } else {
            failures + 1
        }),
        200 <= status <= 299 ==> failures_after(failures, Attempt::Answered(status)) == 0,
        failures_after(failures, Attempt::Failed) == (if failures == 5 {
            5
        } else {
            failures + 1
        }),
{
}

/// Whether an attempt fails: no answer came, or one with a status outside 200 to 299.
pub open spec fn fails(attempt: Attempt) -> bool {
    match attempt {
        Attempt::Failed => true,
        Attempt::Answered(status) => status < 200 || status > 299,
    }
}

/// After `n` failures in a row, with none or another attempt before them, the pause is one,
/// two, four, eight or sixteen seconds, and from five failures on there is none.
pub proof fn law_pauses_by_failures_in_a_row(attempts: Seq<Attempt>, n: int)
    requires
        0 <= n <= attempts.len(),
        forall|i: int| attempts.len() - n <= i < attempts.len() ==> fails(#[trigger] attempts[i]),
        n < attempts.len() ==> !fails(attempts[attempts.len() - n - 1]),
    ensures
        counted_failures(attempts) == (if n < 5 {
            n
        } else {
            5
        }),
        n == 0 ==> next_after(counted_failures(attempts)) == Next::Wait(1),
        n == 1 ==> next_after(counted_failures(attempts)) == Next::Wait(2),
        n == 2 ==> next_after(counted_failures(attempts)) == Next::Wait(4),
        n == 3 ==> next_after(counted_failures(attempts)) == Next::Wait(8),
        n == 4 ==> next_after(counted_failures(attempts)) == Next::Wait(16),
        n >= 5 ==> next_after(counted_failures(attempts)) == Next::GiveUp,
    decreases attempts.len(),
{
    lemma2_to64();
    if n > 0 {
        let earlier = attempts.drop_last();
        assert(fails(attempts[attempts.len() - 1]));
        assert forall|i: int| earlier.len() - (n - 1) <= i < earlier.len() implies fails(
            #[trigger] earlier[i],
        ) by {
            assert(fails(attempts[i]));
        }
        law_pauses_by_failures_in_a_row(earlier, n - 1);
    }
}

} // verus!
