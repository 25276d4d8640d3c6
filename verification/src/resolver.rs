//! The manifest resolver's bounded retry policy.
//!
//! Resolving one asset version asks the store backend for a manifest
//! descriptor.  A transient backend failure is retried up to a bound on
//! the number of attempts; any other failure ends the resolution at
//! once.  The decision logic is a pure step function, and a whole
//! resolution run is characterized over the sequence of backend
//! responses it consumes.

use vstd::prelude::*;

verus! {

/// A content manifest descriptor, resolved for one asset version: the
/// expected content hash and the candidate distribution endpoints.
#[derive(Debug)]
pub struct ManifestDescriptor {
    /// The asset version this descriptor was resolved for.
    pub artifact_id: String,
    /// The expected content hash of the download manifest.
    pub manifest_hash: String,
    /// Candidate base URLs to fetch the download manifest from, in order.
    pub distribution_point_base_urls: Vec<String>,
}

/// The mathematical value of a [`ManifestDescriptor`].
pub struct ManifestDescriptorView {
    pub artifact_id: Seq<char>,
    pub manifest_hash: Seq<char>,
    pub distribution_point_base_urls: Seq<Seq<char>>,
}

impl View for ManifestDescriptor {
    type V = ManifestDescriptorView;

    open spec fn view(&self) -> ManifestDescriptorView {
        ManifestDescriptorView {
            artifact_id: self.artifact_id@,
            manifest_hash: self.manifest_hash@,
            distribution_point_base_urls: self.distribution_point_base_urls@.map_values(
                |u: String| u@,
            ),
        }
    }
}

impl ManifestDescriptor {
    /// Copies the descriptor field by field.
    pub fn duplicate(&self) -> (r: ManifestDescriptor)
        ensures
            r@ == self@,
    {
        let r = ManifestDescriptor {
            artifact_id: self.artifact_id.clone(),
            manifest_hash: self.manifest_hash.clone(),
            distribution_point_base_urls: self.distribution_point_base_urls.clone(),
        };
        proof {
            assert(r@.distribution_point_base_urls =~= self@.distribution_point_base_urls);
        }
        r
    }
}

/// The outcome of one manifest-lookup call against the store backend.
#[derive(Debug)]
pub enum FetchResult {
    /// The lookup returned a descriptor.
    Success(ManifestDescriptor),
    /// The backend failed transiently (a timeout); worth retrying.
    TransientBackend,
    /// The backend failed in any other way; not retried.
    PermanentBackend,
}

/// Why a resolution failed.
#[derive(Debug, PartialEq, Eq, Structural)]
pub enum ResolveError {
    /// A non-transient backend error, reported after a single attempt.
    PermanentBackend,
    /// Transient errors persisted through every allowed attempt.
    RetriesExhausted,
}

/// Whether a backend response is a transient failure.
pub open spec fn is_transient(r: FetchResult) -> bool {
    match r {
        FetchResult::TransientBackend => true,
        _ => false,
    }
}

/// The number of transient failures at the front of a response sequence.
pub open spec fn leading_transients(s: Seq<FetchResult>) -> nat
    decreases s.len(),
{
    if s.len() == 0 || !is_transient(s[0]) {
        0
    } else {
        1 + leading_transients(s.skip(1))
    }
}

/// What a resolution run returns, as a function of the responses it
/// consumed: with `t` transient failures leading the sequence, the run
/// ends on the first decisive response if the bound and the sequence
/// reach it, and reports exhaustion otherwise.  Success is owed exactly
/// when a successful response stands before the bound.
pub open spec fn resolve_post(
    s: Seq<FetchResult>,
    max: int,
    r: Result<ManifestDescriptor, ResolveError>,
    attempts: int,
) -> bool {
    let t = leading_transients(s) as int;
    if t < max && t < s.len() {
        attempts == t + 1 && (match s[t] {
            FetchResult::Success(d) => (match r {
                Result::Ok(rd) => rd@ == d@,
                Result::Err(_) => false,
            }),
            FetchResult::PermanentBackend => r == Result::<ManifestDescriptor,
                ResolveError,
            >::Err(ResolveError::PermanentBackend),
            FetchResult::TransientBackend => false,
        })
    } else {
        r == Result::<ManifestDescriptor, ResolveError>::Err(ResolveError::RetriesExhausted)
            && attempts == (if t < max {
            t
        } else {
            max
        })
    }
}

/// One step of the bounded retry policy: after `attempts_made` attempts
/// whose latest outcome is `outcome`, either retry the lookup, accept
/// its descriptor, or reject the resolution.
pub enum RetryDecision {
    /// Make another attempt.
    Retry,
    /// Resolution succeeded with this descriptor.
    Accept(ManifestDescriptor),
    /// Resolution failed with this error.
    Reject(ResolveError),
}

/// Decides what a resolution run does after one more backend response:
/// a success is accepted, a permanent failure is rejected at once, and a
/// transient failure is retried while attempts remain.
pub fn retry_decision(attempts_made: usize, max_attempts: usize, outcome: FetchResult) -> (d:
    RetryDecision)
    requires
        attempts_made < max_attempts,
    ensures
        (match outcome {
            FetchResult::Success(desc) => d == RetryDecision::Accept(desc),
            FetchResult::PermanentBackend => d == RetryDecision::Reject(
                ResolveError::PermanentBackend,
            ),
            FetchResult::TransientBackend => d == (if attempts_made + 1 < max_attempts {
                RetryDecision::Retry
            } else {
                RetryDecision::Reject(ResolveError::RetriesExhausted)
            }),
        }),
{
    match outcome {
        FetchResult::Success(desc) => RetryDecision::Accept(desc),
        FetchResult::PermanentBackend => RetryDecision::Reject(ResolveError::PermanentBackend),
        FetchResult::TransientBackend => {
            if attempts_made + 1 < max_attempts {
                RetryDecision::Retry
            } else {
                RetryDecision::Reject(ResolveError::RetriesExhausted)
            }
        },
    }
}

/// When the first `k` responses are transient and the next one, if any,
/// is not, exactly `k` transients lead the sequence.
pub proof fn lemma_leading_transients_exact(s: Seq<FetchResult>, k: int)
    requires
        0 <= k <= s.len(),
        forall|j: int| 0 <= j < k ==> is_transient(#[trigger] s[j]),
        k == s.len() || !is_transient(s[k]),
    ensures
        leading_transients(s) == k,
    decreases k,
{
    if k > 0 {
        assert(is_transient(s[0]));
        assert forall|j: int| 0 <= j < k - 1 implies is_transient(#[trigger] s.skip(1)[j]) by {
            assert(s.skip(1)[j] == s[j + 1]);
        }
        assert(s.skip(1).len() == s.len() - 1);
        if k - 1 < s.skip(1).len() {
            assert(s.skip(1)[k - 1] == s[k]);
        }
        lemma_leading_transients_exact(s.skip(1), k - 1);
        assert(leading_transients(s) == 1 + leading_transients(s.skip(1)));
    }
}

/// When the first `k` responses are all transient, at least `k`
/// transients lead the sequence.
pub proof fn lemma_leading_transients_at_least(s: Seq<FetchResult>, k: int)
    requires
        0 <= k <= s.len(),
        forall|j: int| 0 <= j < k ==> is_transient(#[trigger] s[j]),
    ensures
        leading_transients(s) >= k,
    decreases k,
{
    if k > 0 {
        assert(is_transient(s[0]));
        assert forall|j: int| 0 <= j < k - 1 implies is_transient(#[trigger] s.skip(1)[j]) by {
            assert(s.skip(1)[j] == s[j + 1]);
        }
        assert(s.skip(1).len() == s.len() - 1);
        lemma_leading_transients_at_least(s.skip(1), k - 1);
        assert(leading_transients(s) == 1 + leading_transients(s.skip(1)));
    }
}

/// Resolves one asset version from a sequence of backend responses,
/// consuming one response per attempt under the bounded retry policy.
/// Returns the resolution outcome and the number of attempts made.
///
/// The responses stand for the successive results of the store client's
/// manifest lookup; a run over a live backend consumes them as they
/// arrive.
pub fn resolve_from_responses(responses: &Vec<FetchResult>, max_attempts: usize) -> (r: (
    Result<ManifestDescriptor, ResolveError>,
    usize,
))
    requires
        max_attempts >= 1,
    ensures
        resolve_post(responses@, max_attempts as int, r.0, r.1 as int),
{
    let n = responses.len();
    let mut attempts: usize = 0;
    loop
        invariant
            attempts <= max_attempts,
            attempts <= n,
            n == responses@.len(),
            max_attempts >= 1,
            forall|j: int| 0 <= j < attempts ==> is_transient(#[trigger] responses@[j]),
        decreases n - attempts,
    {
        if attempts == max_attempts {
            proof {
                lemma_leading_transients_at_least(responses@, attempts as int);
            }
            return (Err(ResolveError::RetriesExhausted), attempts);
        }
        if attempts == n {
            proof {
                lemma_leading_transients_exact(responses@, attempts as int);
            }
            return (Err(ResolveError::RetriesExhausted), attempts);
        }
        let resp: FetchResult = match &responses[attempts] {
            FetchResult::Success(d) => FetchResult::Success(d.duplicate()),
            FetchResult::TransientBackend => FetchResult::TransientBackend,
            FetchResult::PermanentBackend => FetchResult::PermanentBackend,
        };
        let ghost resp0 = resp;
        proof {
            assert(is_transient(resp0) == is_transient(responses@[attempts as int]));
        }
        let decision = retry_decision(attempts, max_attempts, resp);
        attempts = attempts + 1;
        match decision {
            RetryDecision::Retry => {
                proof {
                    assert(is_transient(responses@[attempts - 1]));
                }
            },
            RetryDecision::Accept(d) => {
                proof {
                    assert(resp0 == FetchResult::Success(d));
                    assert(!is_transient(responses@[attempts - 1]));
                    lemma_leading_transients_exact(responses@, attempts - 1);
                }
                return (Ok(d), attempts);
            },
            RetryDecision::Reject(err) => {
                proof {
                    if err == ResolveError::PermanentBackend {
                        assert(resp0 == FetchResult::PermanentBackend);
                        assert(responses@[attempts - 1] == FetchResult::PermanentBackend);
                        lemma_leading_transients_exact(responses@, attempts - 1);
                    } else {
                        assert(is_transient(responses@[attempts - 1]));
                        assert(attempts == max_attempts);
                        lemma_leading_transients_at_least(responses@, attempts as int);
                    }
                }
                return (Err(err), attempts);
            },
        }
    }
}

/// Recovery law: when exactly `n` transient failures precede a success
/// and the bound allows one more attempt, resolution succeeds after
/// `n + 1` attempts with the successful descriptor.
pub proof fn lemma_resolution_recovers(
    s: Seq<FetchResult>,
    max: int,
    n: int,
    d: ManifestDescriptor,
    r: Result<ManifestDescriptor, ResolveError>,
    attempts: int,
)
    requires
        0 <= n < s.len(),
        n + 1 <= max,
        forall|j: int| 0 <= j < n ==> is_transient(#[trigger] s[j]),
        s[n] == FetchResult::Success(d),
        resolve_post(s, max, r, attempts),
    ensures
        r is Ok && r->Ok_0@ == d@,
        attempts == n + 1,
{
    lemma_leading_transients_exact(s, n);
}

/// Fail-fast law: a permanent backend error on the first attempt ends
/// the resolution immediately, after exactly one attempt.
pub proof fn lemma_resolution_fails_fast(
    s: Seq<FetchResult>,
    max: int,
    r: Result<ManifestDescriptor, ResolveError>,
    attempts: int,
)
    requires
        max >= 1,
        s.len() >= 1,
        s[0] == FetchResult::PermanentBackend,
        resolve_post(s, max, r, attempts),
    ensures
        r == Result::<ManifestDescriptor, ResolveError>::Err(ResolveError::PermanentBackend),
        attempts == 1,
{
    lemma_leading_transients_exact(s, 0);
}

} // verus!
