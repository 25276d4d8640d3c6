use manifest_pipeline::resolver::FetchResult;
use manifest_pipeline::resolver::ManifestDescriptor;
use manifest_pipeline::resolver::ResolveError;
use manifest_pipeline::resolver::RetryDecision;
use manifest_pipeline::resolver::resolve_from_responses;
use manifest_pipeline::resolver::retry_decision;

fn descriptor(artifact: &str, hash: &str, urls: &[&str]) -> ManifestDescriptor {
    ManifestDescriptor {
        artifact_id: artifact.to_string(),
        manifest_hash: hash.to_string(),
        distribution_point_base_urls: urls.iter().map(|u| u.to_string()).collect(),
    }
}

#[test]
fn resolver_retries_transients_then_succeeds() {
    let responses = vec![
        FetchResult::TransientBackend,
        FetchResult::TransientBackend,
        FetchResult::Success(descriptor("art1", "hash1", &["https://cdn.one"])),
    ];
    let (outcome, attempts) = resolve_from_responses(&responses, 5);
    assert_eq!(attempts, 3);
    let d = outcome.expect("resolution should succeed after the transients");
    assert_eq!(d.artifact_id, "art1");
    assert_eq!(d.manifest_hash, "hash1");
    assert_eq!(d.distribution_point_base_urls, vec!["https://cdn.one".to_string()]);
}

#[test]
fn resolver_fails_fast_on_permanent_error() {
    let responses = vec![
        FetchResult::PermanentBackend,
        FetchResult::Success(descriptor("art1", "hash1", &[])),
    ];
    let (outcome, attempts) = resolve_from_responses(&responses, 5);
    assert_eq!(attempts, 1);
    assert_eq!(outcome.unwrap_err(), ResolveError::PermanentBackend);
}

#[test]
fn resolver_exhausts_bounded_attempts() {
    let responses = vec![
        FetchResult::TransientBackend,
        FetchResult::TransientBackend,
        FetchResult::TransientBackend,
        FetchResult::Success(descriptor("art1", "hash1", &[])),
    ];
    let (outcome, attempts) = resolve_from_responses(&responses, 3);
    assert_eq!(attempts, 3);
    assert_eq!(outcome.unwrap_err(), ResolveError::RetriesExhausted);
}

#[test]
fn resolver_succeeds_immediately() {
    let responses = vec![FetchResult::Success(descriptor("art9", "h", &[]))];
    let (outcome, attempts) = resolve_from_responses(&responses, 1);
    assert_eq!(attempts, 1);
    assert_eq!(outcome.unwrap().artifact_id, "art9");
}

#[test]
fn retry_decision_accepts_success() {
    let d = retry_decision(0, 3, FetchResult::Success(descriptor("a", "h", &[])));
    assert!(matches!(d, RetryDecision::Accept(_)));
}

#[test]
fn retry_decision_rejects_permanent_error() {
    let d = retry_decision(0, 3, FetchResult::PermanentBackend);
    assert!(matches!(d, RetryDecision::Reject(ResolveError::PermanentBackend)));
}

#[test]
fn retry_decision_retries_transient_until_bound() {
    let d = retry_decision(0, 3, FetchResult::TransientBackend);
    assert!(matches!(d, RetryDecision::Retry));
    let d = retry_decision(2, 3, FetchResult::TransientBackend);
    assert!(matches!(d, RetryDecision::Reject(ResolveError::RetriesExhausted)));
}
