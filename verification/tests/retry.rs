//! Which provider errors are worth another attempt.
use std::time::Duration;
use yoagent::retry::{backoff_steps, capped_delay, ProviderError};

#[test]
fn rate_limits_and_network_errors_are_retryable() {
    assert!(ProviderError::RateLimited { retry_after_ms: None }.is_retryable());
    assert!(ProviderError::Network("down".into()).is_retryable());
    assert!(!ProviderError::Auth("no".into()).is_retryable());
    assert!(!ProviderError::Api("bad".into()).is_retryable());
    assert!(!ProviderError::Cancelled.is_retryable());
    assert!(!ProviderError::ContextOverflow {
        message: "long".into()
    }
    .is_retryable());
    assert!(!ProviderError::Other("x".into()).is_retryable());
}

#[test]
fn only_a_rate_limit_says_when_to_retry() {
    let limited = ProviderError::RateLimited {
        retry_after_ms: Some(1500),
    };
    assert_eq!(limited.retry_after(), Some(Duration::from_millis(1500)));
    assert_eq!(
        ProviderError::RateLimited { retry_after_ms: None }.retry_after(),
        None
    );
    assert_eq!(ProviderError::Network("down".into()).retry_after(), None);
}

#[test]
fn attempts_count_from_one() {
    assert_eq!(backoff_steps(0), 0);
    assert_eq!(backoff_steps(1), 0);
    assert_eq!(backoff_steps(3), 2);
}

#[test]
fn delays_have_a_maximum() {
    assert_eq!(capped_delay(1_000, 30_000), 1_000);
    assert_eq!(capped_delay(36_000, 30_000), 30_000);
}
