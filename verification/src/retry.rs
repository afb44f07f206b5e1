//! Which provider errors are worth another attempt, and when.
use core::time::Duration;
use vstd::prelude::*;

verus! {

/// Why a provider failed.
#[derive(Debug)]
pub enum ProviderError {
    /// The API rejected the request.
    Api(String),
    /// The network failed, or the server did for a moment.
    Network(String),
    /// The credentials were rejected.
    Auth(String),
    /// The provider asks for fewer requests, and may say when to try again.
    RateLimited { retry_after_ms: Option<u64> },
    /// The request did not fit the model's context.
    ContextOverflow { message: String },
    /// The request was cancelled.
    Cancelled,
    /// Anything else.
    Other(String),
}

/// The duration of a number of milliseconds.
pub uninterp spec fn duration_of_millis(millis: u64) -> Duration;

/// `Duration::from_millis` returns the duration of a number of milliseconds.
pub assume_specification[ Duration::from_millis ](millis: u64) -> (duration: Duration)
    ensures
        duration == duration_of_millis(millis),
;

/// Whether another attempt may succeed after the error.
pub open spec fn worth_retrying(error: ProviderError) -> bool {
    error is RateLimited || error is Network
}

/// The milliseconds after which the provider asks for another attempt.
pub open spec fn asked_delay(error: ProviderError) -> Option<u64> {
    match error {
        ProviderError::RateLimited { retry_after_ms } => retry_after_ms,
        _ => None,
    }
}

impl ProviderError {
    /// Whether another attempt may succeed: after a rate limit or a network error. A rejected
    /// request or credential is rejected again, and a cancelled request is not wanted.
    pub fn is_retryable(&self) -> (retryable: bool)
        ensures
            retryable == (*self is RateLimited || *self is Network),
            retryable == worth_retrying(*self),
    {
        matches!(self, ProviderError::RateLimited { .. } | ProviderError::Network(_))
    }

    /// The delay that the provider asks for, where it is a rate limit that says so.
    pub fn retry_after(&self) -> (delay: Option<Duration>)
        ensures
            delay == match *self {
                ProviderError::RateLimited { retry_after_ms: Some(millis) } => Some(
                    duration_of_millis(millis),
                ),
                _ => None,
            },
            delay == match asked_delay(*self) {
                Some(millis) => Some(duration_of_millis(millis)),
                None => None,
            },
    {
        match self {
            ProviderError::RateLimited { retry_after_ms: Some(millis) } => Some(
                Duration::from_millis(*millis),
            ),
            _ => None,
        }
    }
}

/// How often the delay is multiplied before an attempt.
pub open spec fn steps_before(attempt: nat) -> nat {
    if attempt == 0 {
        0
    } else {
        (attempt - 1) as nat
    }
}

/// The lesser of a delay and the longest that is wanted.
pub open spec fn capped(delay_ms: nat, max_delay_ms: nat) -> nat {
    if delay_ms <= max_delay_ms {
        delay_ms
    } else {
        max_delay_ms
    }
}

/// How often the delay is multiplied before the given attempt, the first of which has the
/// number one. A number of zero counts as the first.
pub fn backoff_steps(attempt: usize) -> (steps: usize)
    ensures
        steps == if attempt == 0 {
            0
        } else {
            attempt - 1
        },
        steps == steps_before(attempt as nat),
{
    attempt.saturating_sub(1)
}

/// A delay in milliseconds, cut to the longest that is wanted.
pub fn capped_delay(delay_ms: u64, max_delay_ms: u64) -> (capped: u64)
    ensures
        capped == if delay_ms <= max_delay_ms {
            delay_ms
        } else {
            max_delay_ms
        },
        capped == self::capped(delay_ms as nat, max_delay_ms as nat),
{
    if delay_ms <= max_delay_ms {
        delay_ms
    } else {
        max_delay_ms
    }
}

/// A rate limit and a network error are worth another attempt, whatever they say, and nothing
/// else is. Only a rate limit asks for a delay, and for the one that it names.
pub proof fn law_rate_limits_and_network_errors_are_retried(
    error: ProviderError,
    text: String,
    millis: Option<u64>,
)
    ensures
        worth_retrying(ProviderError::RateLimited { retry_after_ms: millis }),
        worth_retrying(ProviderError::Network(text)),
        error is Api || error is Auth || error is ContextOverflow || error is Cancelled || error
            is Other ==> !worth_retrying(error) && asked_delay(error) is None,
        asked_delay(ProviderError::RateLimited { retry_after_ms: millis }) == millis,
        asked_delay(error) is Some ==> worth_retrying(error),
{
}

/// Each attempt after the first multiplies the delay once more, and a number of zero counts as
/// the first.
pub proof fn law_each_attempt_backs_off_once_more(attempt: nat)
    ensures
        steps_before(0) == 0,
        steps_before(1) == 0,
        attempt >= 1 ==> steps_before(attempt + 1) == steps_before(attempt) + 1,
{
}

/// A delay is never longer than is wanted, and is kept where it is not.
pub proof fn law_delay_is_capped(delay_ms: nat, max_delay_ms: nat)
    ensures
        capped(delay_ms, max_delay_ms) <= max_delay_ms,
        capped(delay_ms, max_delay_ms) <= delay_ms,
        capped(delay_ms, max_delay_ms) == delay_ms || capped(delay_ms, max_delay_ms)
            == max_delay_ms,
{
}

} // verus!
