//! The distribution verifier.
//!
//! A resolved manifest descriptor lists candidate distribution points.
//! Every candidate is tried independently, in the descriptor's order and
//! with no early abort; for each one either the fetch failure is
//! recorded, or the fetched download manifest's hash field is compared
//! textually against the descriptor's expected hash and both values are
//! reported for the caller to judge.

use vstd::prelude::*;
use crate::lexical::str_eq;
use crate::resolver::ManifestDescriptor;

verus! {

/// A fetched download manifest, reduced to its custom fields: named
/// string values, looked up by the first pair carrying a key.
pub struct DownloadManifest {
    /// The manifest's custom fields as `(key, value)` pairs.
    pub custom_fields: Vec<(String, String)>,
}

/// The first value stored under a key, if any.
pub open spec fn field_lookup(fields: Seq<(String, String)>, key: Seq<char>) -> Option<
    Seq<char>,
>
    decreases fields.len(),
{
    if fields.len() == 0 {
        None
    } else if fields[0].0@ == key {
        Some(fields[0].1@)
    } else {
        field_lookup(fields.skip(1), key)
    }
}

impl DownloadManifest {
    /// Looks up a custom field by key, returning the first value stored
    /// under it.
    pub fn custom_field(&self, key: &str) -> (r: Option<String>)
        ensures
            (match field_lookup(self.custom_fields@, key@) {
                Option::Some(v) => r is Some && r->0@ == v,
                Option::None => r is None,
            }),
    {
        let n = self.custom_fields.len();
        let mut i: usize = 0;
        proof {
            assert(self.custom_fields@.skip(0) =~= self.custom_fields@);
        }
        while i < n
            invariant
                i <= n,
                n == self.custom_fields@.len(),
                field_lookup(self.custom_fields@, key@) == field_lookup(
                    self.custom_fields@.skip(i as int),
                    key@,
                ),
            decreases n - i,
        {
            proof {
                assert(self.custom_fields@.skip(i as int)[0] == self.custom_fields@[i as int]);
            }
            if str_eq(self.custom_fields[i].0.as_str(), key) {
                return Some(self.custom_fields[i].1.clone());
            }
            proof {
                assert(self.custom_fields@.skip(i as int).skip(1) =~= self.custom_fields@.skip(
                    i + 1,
                ));
            }
            i = i + 1;
        }
        proof {
            assert(self.custom_fields@.skip(i as int).len() == 0);
        }
        None
    }
}

/// The name of the download manifest's field that carries the downloaded
/// content hash.
pub open spec fn hash_field_name() -> Seq<char> {
    "DownloadedManifestHash"@
}

/// The field key under which a download manifest reports its hash.
pub fn downloaded_hash_field() -> (r: &'static str)
    ensures
        r@ == hash_field_name(),
{
    "DownloadedManifestHash"
}

/// What one distribution point attempt produced.
pub enum DistFetchResult {
    /// The download manifest was fetched from the candidate URL.
    Fetched(DownloadManifest),
    /// The fetch failed; the attempt is recorded and the next candidate
    /// is tried.
    FetchFailed,
}

/// The verdict recorded for one distribution point.
#[derive(Debug)]
pub enum VerificationOutcome {
    /// The download manifest could not be fetched from this URL.
    FetchFailed { url: String },
    /// The manifest was fetched; both hashes are surfaced, and whether
    /// they agree.  An absent hash field is reported as an empty string.
    HashReport { url: String, expected: String, observed: String, hash_match: bool },
}

/// The hash a fetched download manifest observes: its hash field, or the
/// empty string when the field is absent.
pub open spec fn observed_hash(m: DownloadManifest) -> Seq<char> {
    match field_lookup(m.custom_fields@, hash_field_name()) {
        Option::Some(v) => v,
        Option::None => Seq::<char>::empty(),
    }
}

/// The outcome owed for one URL of a descriptor: a recorded failure for
/// a failed fetch, and a full hash report for a fetched manifest.
pub open spec fn outcome_for(
    expected: Seq<char>,
    url: Seq<char>,
    res: DistFetchResult,
    out: VerificationOutcome,
) -> bool {
    match res {
        DistFetchResult::FetchFailed => (match out {
            VerificationOutcome::FetchFailed { url: u } => u@ == url,
            _ => false,
        }),
        DistFetchResult::Fetched(m) => (match out {
            VerificationOutcome::HashReport { url: u, expected: e, observed: o, hash_match } => {
                &&& u@ == url
                &&& e@ == expected
                &&& o@ == observed_hash(m)
                &&& hash_match == (observed_hash(m) == expected)
            },
            _ => false,
        }),
    }
}

/// Verifies a resolved descriptor against every one of its distribution
/// points: one outcome per candidate URL, in the descriptor's order,
/// with no early abort on failure or mismatch.
///
/// The fetch results stand for what each URL's download attempt
/// produced; a run over live distribution points collects them one URL
/// at a time.
pub fn verify_distribution(descriptor: &ManifestDescriptor, results: Vec<DistFetchResult>) -> (r:
    Vec<VerificationOutcome>)
    requires
        results@.len() == descriptor@.distribution_point_base_urls.len(),
    ensures
        r@.len() == results@.len(),
        forall|i: int|
            0 <= i < r@.len() ==> outcome_for(
                descriptor@.manifest_hash,
                descriptor@.distribution_point_base_urls[i],
                results@[i],
                #[trigger] r@[i],
            ),
{
    let mut out: Vec<VerificationOutcome> = Vec::new();
    let n = descriptor.distribution_point_base_urls.len();
    let mut i: usize = 0;
    while i < n
        invariant
            i <= n,
            n == descriptor@.distribution_point_base_urls.len(),
            results@.len() == n,
            out@.len() == i,
            forall|j: int|
                0 <= j < i ==> outcome_for(
                    descriptor@.manifest_hash,
                    descriptor@.distribution_point_base_urls[j],
                    results@[j],
                    #[trigger] out@[j],
                ),
        decreases n - i,
    {
        let url = descriptor.distribution_point_base_urls[i].clone();
        match &results[i] {
            DistFetchResult::FetchFailed => {
                out.push(VerificationOutcome::FetchFailed { url });
            },
            DistFetchResult::Fetched(m) => {
                let observed = match m.custom_field(downloaded_hash_field()) {
                    Some(v) => v,
                    None => String::new(),
                };
                proof {
                    if field_lookup(m.custom_fields@, hash_field_name()) is None {
                        assert(observed@ =~= observed_hash(*m));
                    }
                }
                let expected = descriptor.manifest_hash.clone();
                let hash_match = str_eq(observed.as_str(), expected.as_str());
                out.push(VerificationOutcome::HashReport { url, expected, observed, hash_match });
            },
        }
        i = i + 1;
    }
    out
}

} // verus!
