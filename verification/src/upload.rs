//! The decisions of the Roblox upload client: when a request is retried and
//! how long to wait, and how the asset operation is polled until Roblox
//! reports the new asset id.

use vstd::prelude::*;
use crate::text::{chars_of, decimal, decimal_digit};
use vstd::arithmetic::power2::{pow2, lemma2_to64, lemma_pow2_strictly_increases, lemma_pow2_unfold};

verus! {

/// A decimal digit.
pub open spec fn is_digit(c: char) -> bool {
    '0' <= c && c <= '9'
}

/// The value of a string of decimal digits.
pub open spec fn digits_value(s: Seq<char>) -> nat
    decreases s.len(),
{
    if s.len() == 0 {
        0
    } else {
        digits_value(s.drop_last()) * 10 + (s.last() as int - 48) as nat
    }
}

/// The text after an optional leading `+`.
pub open spec fn unsigned_digits(s: Seq<char>) -> Seq<char> {
    if s.len() > 0 && s[0] == '+' {
        s.drop_first()
    } else {
        s
    }
}

/// Every character is a decimal digit.
pub open spec fn all_digits(d: Seq<char>) -> bool {
    forall|i: int| 0 <= i < d.len() ==> is_digit(#[trigger] d[i])
}

/// What `str::parse::<u64>` accepts: an optional `+`, then one or more
/// decimal digits whose value fits in a `u64`.
pub open spec fn parse_u64_spec(s: Seq<char>) -> Option<u64> {
    let d = unsigned_digits(s);
    if d.len() > 0 && all_digits(d) && digits_value(d) <= u64::MAX {
        Some(digits_value(d) as u64)
    } else {
        None
    }
}

proof fn lemma_decimal_digits(n: nat)
    ensures
        decimal(n).len() > 0,
        all_digits(decimal(n)),
        digits_value(decimal(n)) == n,
        decimal(n)[0] != '+',
    decreases n,
{
    if n >= 10 {
        lemma_decimal_digits(n / 10);
        let d = decimal(n / 10);
        let t = decimal(n);
        assert(t == d.push(decimal_digit((n % 10) as int)));
        assert(t.drop_last() =~= d);
        assert forall|i: int| 0 <= i < t.len() implies is_digit(#[trigger] t[i]) by {
            if i < d.len() {
                assert(t[i] == d[i]);
            }
        }
        assert(t[0] == d[0]);
        assert(decimal_digit((n % 10) as int) as int == 48 + n % 10);
        assert(t.last() == decimal_digit((n % 10) as int));
        assert(digits_value(t) == digits_value(d) * 10 + (t.last() as int - 48) as nat);
        assert(n == (n / 10) * 10 + n % 10);
    } else {
        assert(decimal_digit(n as int) as int == 48 + n);
        assert(decimal(n).last() == decimal_digit(n as int));
        assert(digits_value(decimal(n)) == digits_value(decimal(n).drop_last()) * 10 + (decimal(
            n,
        ).last() as int - 48) as nat);
        assert(decimal(n) == seq![decimal_digit(n as int)]);
        assert(decimal(n).drop_last() =~= Seq::<char>::empty());
    }
}

/// Reading a number back from its decimal writing (with or without a
/// leading `+`) gives the number.
pub proof fn lemma_parse_reads_decimal(n: u64)
    ensures
        parse_u64_spec(decimal(n as nat)) == Some(n),
        parse_u64_spec(seq!['+'] + decimal(n as nat)) == Some(n),
{
    lemma_decimal_digits(n as nat);
    let d = decimal(n as nat);
    assert((seq!['+'] + d).drop_first() =~= d);
}

/// A text with a character other than a digit (past an optional leading
/// `+`), or with no digit at all, is not a number.
pub proof fn lemma_parse_rejects(s: Seq<char>, i: int)
    requires
        0 <= i < s.len(),
        !is_digit(s[i]),
        !(i == 0 && s[0] == '+'),
    ensures
        parse_u64_spec(s) is None,
        parse_u64_spec(Seq::empty()) is None,
        parse_u64_spec(seq!['+']) is None,
{
    let d = unsigned_digits(s);
    if s[0] == '+' {
        assert(d[i - 1] == s[i]);
    } else {
        assert(d[i] == s[i]);
    }
    assert(seq!['+'].drop_first() =~= Seq::<char>::empty());
}

/// A longer string of digits is worth at least as much as its prefix.
proof fn lemma_digits_value_prefix(s: Seq<char>, k: int)
    requires
        0 <= k <= s.len(),
        all_digits(s),
    ensures
        digits_value(s.take(k)) <= digits_value(s),
    decreases s.len(),
{
    if k < s.len() {
        let d = s.drop_last();
        assert(s.take(k) =~= d.take(k));
        assert forall|i: int| 0 <= i < d.len() implies is_digit(#[trigger] d[i]) by {
            assert(d[i] == s[i]);
        }
        lemma_digits_value_prefix(d, k);
        assert(is_digit(s[s.len() - 1]));
    } else {
        assert(s.take(k) =~= s);
    }
}

/// Reads a decimal `u64` as `str::parse::<u64>` does: an optional `+`, then
/// one or more decimal digits whose value fits.
pub fn parse_u64(s: &str) -> (r: Option<u64>)
    ensures
        r == parse_u64_spec(s@),
{
    let cs = chars_of(s);
    let n = cs.len();
    let start: usize = if n > 0 && cs[0] == '+' {
        1
    } else {
        0
    };
    let ghost d = unsigned_digits(s@);
    proof {
        assert(d =~= cs@.skip(start as int));
    }
    if start == n {
        return None;
    }
    let mut v: u64 = 0;
    let mut i: usize = start;
    while i < n
        invariant
            n == cs@.len(),
            cs@ == s@,
            start <= i <= n,
            d =~= cs@.skip(start as int),
            d == unsigned_digits(s@),
            forall|j: int| 0 <= j < i - start ==> is_digit(#[trigger] d[j]),
            v == digits_value(d.take(i - start)),
        decreases n - i,
    {
        let c = cs[i];
        let ghost k = i - start;
        if !('0' <= c && c <= '9') {
            proof {
                assert(d[k] == c);
                assert(!is_digit(d[k]));
            }
            return None;
        }
        let digit = (c as u32 - 48) as u64;
        proof {
            assert(d.take(k + 1).drop_last() =~= d.take(k));
            assert(d.take(k + 1).last() == c);
            assert(d[k] == c);
            assert(digit == c as int - 48);
            assert(digits_value(d.take(k + 1)) == v * 10 + digit);
        }
        match v.checked_mul(10) {
            None => {
                proof {
                    if all_digits(d) {
                        lemma_digits_value_prefix(d, k + 1);
                    }
                }
                return None;
            },
            Some(t) => match t.checked_add(digit) {
                None => {
                    proof {
                        if all_digits(d) {
                            lemma_digits_value_prefix(d, k + 1);
                        }
                    }
                    return None;
                },
                Some(w) => {
                    v = w;
                },
            },
        }
        i = i + 1;
    }
    proof {
        assert(d.take(n - start) =~= d);
    }
    Some(v)
}

/// The view of an optional string slice.
pub open spec fn opt_view(o: Option<&str>) -> Option<Seq<char>> {
    match o {
        Some(s) => Some(s@),
        None => None,
    }
}

/// How many times a rate-limited request is retried.
pub const MAX_RETRIES: u8 = 5;

/// HTTP 200.
pub const STATUS_OK: u16 = 200;

/// HTTP 429.
pub const STATUS_TOO_MANY_REQUESTS: u16 = 429;

/// The back-off after the `attempt`-th rate limit when Roblox names no
/// reset time: `1 << attempt` seconds.
pub open spec fn backoff_secs(attempt: u8) -> u64 {
    (1u64 << attempt) as u64
}

/// The wait after a rate limit: the `x-ratelimit-reset` header's seconds
/// when it holds a number, else the back-off.
pub open spec fn rate_limit_wait(attempt: u8, reset_header: Option<Seq<char>>) -> u64 {
    match reset_header {
        Some(h) => match parse_u64_spec(h) {
            Some(secs) => secs,
            None => backoff_secs(attempt),
        },
        None => backoff_secs(attempt),
    }
}

/// What to do with a response.
pub enum RetryAction {
    /// Rate limited: wait this many seconds (and hold every request of the
    /// client back until then), then send again.
    Wait(u64),
    /// Success: hand the response on.
    Accept,
    /// Any other status, or too many rate limits: the client fails fatally.
    Reject,
}

/// The decision on a response with `status` after `attempt` retries.
pub open spec fn retry_decision(attempt: u8, status: u16, reset_header: Option<Seq<char>>) -> RetryAction {
    if status == STATUS_TOO_MANY_REQUESTS && attempt < MAX_RETRIES {
        RetryAction::Wait(rate_limit_wait(attempt, reset_header))
    } else if status == STATUS_OK {
        RetryAction::Accept
    } else {
        RetryAction::Reject
    }
}

/// The retry state of one request.
pub struct RetryState {
    attempt: u8,
}

impl RetryState {
    /// How many times the request has been retried.
    pub closed spec fn attempts(&self) -> u8 {
        self.attempt
    }

    /// Starts a request, unless an earlier request of the client failed
    /// fatally, in which case nothing more is sent.
    pub fn start(fatally_failed: bool) -> (r: Option<RetryState>)
        ensures
            fatally_failed ==> r is None,
            !fatally_failed ==> (r matches Some(s) && s.attempts() == 0),
    {
        if fatally_failed {
            None
        } else {
            Some(RetryState { attempt: 0 })
        }
    }

    /// Decides on a response with `status` whose `x-ratelimit-reset` header
    /// (if present and readable) is `reset_header`. A rate limit is retried
    /// at most `MAX_RETRIES` times.
    pub fn on_response(&mut self, status: u16, reset_header: Option<&str>) -> (r: RetryAction)
        ensures
            r == retry_decision(old(self).attempts(), status, opt_view(reset_header)),
            final(self).attempts() == if r is Wait {
                (old(self).attempts() + 1) as u8
            } else {
                old(self).attempts()
            },
            r is Wait ==> old(self).attempts() < MAX_RETRIES,
    {
        if status == STATUS_TOO_MANY_REQUESTS && self.attempt < MAX_RETRIES {
            let backoff = 1u64 << self.attempt;
            let wait = match reset_header {
                Some(h) => match parse_u64(h) {
                    Some(secs) => secs,
                    None => backoff,
                },
                None => backoff,
            };
            self.attempt = self.attempt + 1;
            RetryAction::Wait(wait)
        } else if status == STATUS_OK {
            RetryAction::Accept
        } else {
            RetryAction::Reject
        }
    }
}

/// A successful response is accepted whatever happened before: after any
/// number of retries and with any header.
pub proof fn lemma_ok_is_accepted(attempt: u8, reset_header: Option<Seq<char>>)
    ensures
        retry_decision(attempt, 200u16, reset_header) == RetryAction::Accept,
{
}

/// A response that is neither 200 nor 429, and a 429 after five retries,
/// fail the client.
pub proof fn lemma_failures_rejected(attempt: u8, status: u16, reset_header: Option<Seq<char>>)
    ensures
        status != 200 && status != 429 ==> retry_decision(attempt, status, reset_header)
            == RetryAction::Reject,
        attempt >= 5 ==> retry_decision(attempt, 429u16, reset_header) == RetryAction::Reject,
{
}

/// Within five retries, a rate limit waits the header's number of seconds
/// when the header holds one, and otherwise `2^attempt` seconds.
pub proof fn lemma_rate_limit_wait(attempt: u8, reset_header: Option<Seq<char>>)
    requires
        attempt < 5,
    ensures
        forall|h: Seq<char>, secs: u64|
            reset_header == Some(h) && parse_u64_spec(h) == Some(secs) ==> retry_decision(
                attempt,
                429u16,
                reset_header,
            ) == RetryAction::Wait(secs),
        (forall|h: Seq<char>| reset_header == Some(h) ==> parse_u64_spec(h) is None) ==> retry_decision(
            attempt,
            429u16,
            reset_header,
        ) == RetryAction::Wait(pow2(attempt as nat) as u64),
{
    lemma2_to64();
    if attempt == 0 {
        assert((1u64 << 0u8) == 1) by (bit_vector);
    } else if attempt == 1 {
        assert((1u64 << 1u8) == 2) by (bit_vector);
    } else if attempt == 2 {
        assert((1u64 << 2u8) == 4) by (bit_vector);
    } else if attempt == 3 {
        assert((1u64 << 3u8) == 8) by (bit_vector);
    } else {
        assert((1u64 << 4u8) == 16) by (bit_vector);
    }
}

/// Each further rate limit without a reset time doubles the back-off.
pub proof fn lemma_backoff_doubles(attempt: u8)
    requires
        attempt < MAX_RETRIES,
    ensures
        backoff_secs((attempt + 1) as u8) == 2 * backoff_secs(attempt),
        backoff_secs(0) == 1,
{
    assert((1u64 << ((attempt + 1) as u8)) == 2 * (1u64 << attempt)) by (bit_vector)
        requires
            attempt < 5,
    ;
    assert((1u64 << 0u8) == 1) by (bit_vector);
}

/// How many times the operation is polled before giving up.
pub const MAX_POLLS: u32 = 10;

/// What one look at the upload operation showed.
pub enum PollOutcome {
    /// Done, with this asset id.
    Finished(u64),
    /// Done, but the asset id is not a number.
    BadAssetId,
    /// Done, but no asset id was returned.
    MissingAssetId,
    /// Not done yet: poll again.
    Pending,
}

/// The outcome of one poll of an operation.
pub open spec fn poll_outcome(done: bool, asset_id: Option<Seq<char>>) -> PollOutcome {
    if done {
        match asset_id {
            Some(a) => match parse_u64_spec(a) {
                Some(id) => PollOutcome::Finished(id),
                None => PollOutcome::BadAssetId,
            },
            None => PollOutcome::MissingAssetId,
        }
    } else {
        PollOutcome::Pending
    }
}

/// A finished operation gives the asset id that its id text reads as; a
/// finished operation whose id is not a number, or has no id, is an error;
/// an unfinished one is polled again.
pub proof fn lemma_poll_outcome_law(done: bool, asset_id: Option<Seq<char>>)
    ensures
        forall|a: Seq<char>, id: u64|
            asset_id == Some(a) && parse_u64_spec(a) == Some(id) ==> poll_outcome(true, asset_id)
                == PollOutcome::Finished(id),
        forall|a: Seq<char>|
            asset_id == Some(a) && parse_u64_spec(a) is None ==> poll_outcome(true, asset_id)
                == PollOutcome::BadAssetId,
        asset_id is None ==> poll_outcome(true, asset_id) == PollOutcome::MissingAssetId,
        poll_outcome(false, asset_id) == PollOutcome::Pending,
{
}

/// The polling of one upload operation: a wait of 1 s before the first
/// poll, doubling before each further one, for at most `MAX_POLLS` polls.
pub struct PollState {
    polls: u32,
    delay_secs: u64,
}

impl PollState {
    /// Polls made so far.
    pub closed spec fn polls(&self) -> u32 {
        self.polls
    }

    /// The wait before the next poll, in seconds.
    pub closed spec fn delay(&self) -> u64 {
        self.delay_secs
    }

    /// Internal consistency: the wait is `2^polls` seconds.
    pub closed spec fn wf(&self) -> bool {
        &&& self.polls <= MAX_POLLS
        &&& self.delay_secs == pow2(self.polls as nat)
    }

    /// Polling that has not started.
    pub fn new() -> (s: PollState)
        ensures
            s.wf(),
            s.polls() == 0,
            s.delay() == 1,
    {
        proof {
            lemma2_to64();
        }
        PollState { polls: 0, delay_secs: 1 }
    }

    /// The wait before the next poll, or `None` once `MAX_POLLS` polls have
    /// been made (the upload timed out).
    pub fn next_wait(&self) -> (r: Option<u64>)
        requires
            self.wf(),
        ensures
            self.polls() < MAX_POLLS ==> r == Some(self.delay()),
            self.polls() >= MAX_POLLS ==> r is None,
    {
        if self.polls < MAX_POLLS {
            Some(self.delay_secs)
        } else {
            None
        }
    }

    /// Records what a poll showed: whether the operation is done and the
    /// asset id it carries.
    pub fn on_operation(&mut self, done: bool, asset_id: Option<&str>) -> (r: PollOutcome)
        requires
            old(self).wf(),
            old(self).polls() < MAX_POLLS,
        ensures
            final(self).wf(),
            r == poll_outcome(done, opt_view(asset_id)),
            r is Pending ==> final(self).polls() == old(self).polls() + 1 && final(self).delay() == 2
                * old(self).delay(),
            !(r is Pending) ==> *final(self) == *old(self),
    {
        if done {
            match asset_id {
                Some(a) => match parse_u64(a) {
                    Some(id) => PollOutcome::Finished(id),
                    None => PollOutcome::BadAssetId,
                },
                None => PollOutcome::MissingAssetId,
            }
        } else {
            proof {
                lemma2_to64();
                lemma_pow2_strictly_increases(self.polls as nat, 10);
                lemma_pow2_unfold((self.polls + 1) as nat);
            }
            self.polls = self.polls + 1;
            self.delay_secs = self.delay_secs * 2;
            PollOutcome::Pending
        }
    }
}

} // verus!
