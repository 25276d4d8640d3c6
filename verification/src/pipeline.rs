//! Resolution of a whole library page.
//!
//! Every asset of a page carries an ordered sequence of project
//! versions, and each version is resolved on its own under the bounded
//! retry policy.  Versions are processed strictly in order: assets in
//! their given order, and within one asset its versions in their given
//! sequence.  A failure is scoped to the single version being resolved;
//! the enumeration always continues with the next one.

use vstd::prelude::*;
use crate::resolver::FetchResult;
use crate::resolver::ManifestDescriptor;
use crate::resolver::ResolveError;
use crate::resolver::resolve_from_responses;
use crate::resolver::resolve_post;

verus! {

/// One version of an asset's project, resolved independently.
pub struct ProjectVersion {
    /// The identifier the manifest lookup is made with.
    pub artifact_id: String,
}

/// A namespace-scoped asset description with its ordered versions.
pub struct AssetRecord {
    /// The asset's display title.
    pub title: String,
    /// The namespace the asset lives in.
    pub asset_namespace: String,
    /// The asset's identifier within its namespace.
    pub asset_id: String,
    /// The versions of the asset's project, in their given order.
    pub project_versions: Vec<ProjectVersion>,
}

/// The recorded outcome of resolving one asset version.
pub struct VersionResolution {
    /// The version the resolution was made for.
    pub artifact_id: String,
    /// The resolved descriptor, or why resolution failed.
    pub outcome: Result<ManifestDescriptor, ResolveError>,
    /// How many lookup attempts the resolution consumed.
    pub attempts: usize,
}

/// The number of versions the first `i` assets carry.
pub open spec fn versions_before(assets: Seq<AssetRecord>, i: int) -> int
    decreases i,
{
    if i <= 0 {
        0
    } else {
        versions_before(assets, i - 1) + assets[i - 1].project_versions@.len()
    }
}

/// The total number of versions of a library page.
pub open spec fn total_versions(assets: Seq<AssetRecord>) -> int {
    versions_before(assets, assets.len() as int)
}

/// Version counts accumulate: earlier prefixes count no more versions.
pub proof fn lemma_versions_before_mono(assets: Seq<AssetRecord>, i: int, j: int)
    requires
        0 <= i <= j,
    ensures
        versions_before(assets, i) <= versions_before(assets, j),
    decreases j - i,
{
    if i < j {
        lemma_versions_before_mono(assets, i, j - 1);
    }
}

/// The record owed for version `b` of asset `a`: it stands at the flat
/// position of that version, carries its artifact id, and holds a
/// resolution outcome correct for that version's responses.
pub open spec fn resolution_ok(
    assets: Seq<AssetRecord>,
    responses: Seq<Vec<FetchResult>>,
    out: Seq<VersionResolution>,
    max: int,
    a: int,
    b: int,
) -> bool {
    let k = versions_before(assets, a) + b;
    &&& out[k].artifact_id@ == assets[a].project_versions@[b].artifact_id@
    &&& resolve_post(responses[k]@, max, out[k].outcome, out[k].attempts as int)
}

/// Resolves every version of every asset of a library page, consuming
/// one response sequence per version, in order.  The result holds one
/// record per version: assets in their given order and, within one
/// asset, versions in their given sequence, each with its own
/// resolution outcome.
pub fn resolve_library(
    assets: &Vec<AssetRecord>,
    responses: &Vec<Vec<FetchResult>>,
    max_attempts: usize,
) -> (r: Vec<VersionResolution>)
    requires
        max_attempts >= 1,
        responses@.len() == total_versions(assets@),
    ensures
        r@.len() == total_versions(assets@),
        forall|i: int, j: int|
            0 <= i < assets@.len() && 0 <= j < assets@[i].project_versions@.len()
                ==> #[trigger] resolution_ok(assets@, responses@, r@, max_attempts as int, i, j),
{
    let mut out: Vec<VersionResolution> = Vec::new();
    let n = assets.len();
    let mut i: usize = 0;
    while i < n
        invariant
            i <= n,
            n == assets@.len(),
            max_attempts >= 1,
            responses@.len() == total_versions(assets@),
            out@.len() == versions_before(assets@, i as int),
            forall|a: int, b: int|
                0 <= a < i && 0 <= b < assets@[a].project_versions@.len()
                    ==> #[trigger] resolution_ok(assets@, responses@, out@, max_attempts as int, a, b),
        decreases n - i,
    {
        let m = assets[i].project_versions.len();
        let mut j: usize = 0;
        while j < m
            invariant
                j <= m,
                i < n,
                n == assets@.len(),
                m == assets@[i as int].project_versions@.len(),
                max_attempts >= 1,
                responses@.len() == total_versions(assets@),
                out@.len() == versions_before(assets@, i as int) + j,
                forall|a: int, b: int|
                    0 <= a < i && 0 <= b < assets@[a].project_versions@.len()
                        ==> #[trigger] resolution_ok(assets@, responses@, out@, max_attempts as int, a, b),
                forall|b: int|
                    0 <= b < j ==> #[trigger] resolution_ok(
                        assets@,
                        responses@,
                        out@,
                        max_attempts as int,
                        i as int,
                        b,
                    ),
            decreases m - j,
        {
            proof {
                assert(versions_before(assets@, i + 1) == versions_before(assets@, i as int)
                    + m);
                lemma_versions_before_mono(assets@, i + 1, n as int);
                lemma_versions_before_mono(assets@, 0, i as int);
            }
            let k = out.len();
            let res = resolve_from_responses(&responses[k], max_attempts);
            let artifact = assets[i].project_versions[j].artifact_id.clone();
            let ghost out0 = out@;
            out.push(VersionResolution { artifact_id: artifact, outcome: res.0, attempts: res.1 });
            proof {
                assert(out@ == out0.push(out@.last()));
                assert forall|a: int, b: int|
                    0 <= a < i && 0 <= b < assets@[a].project_versions@.len()
                        implies #[trigger] resolution_ok(
                        assets@,
                        responses@,
                        out@,
                        max_attempts as int,
                        a,
                        b,
                    ) by {
                    let kk = versions_before(assets@, a) + b;
                    assert(resolution_ok(assets@, responses@, out0, max_attempts as int, a, b));
                    assert(versions_before(assets@, a + 1) == versions_before(assets@, a)
                        + assets@[a].project_versions@.len());
                    lemma_versions_before_mono(assets@, a + 1, i as int);
                    lemma_versions_before_mono(assets@, 0, a);
                    assert(kk < versions_before(assets@, i as int));
                    assert(out0.push(out@.last())[kk] == out0[kk]);
                }
                assert forall|b: int| 0 <= b < j + 1 implies #[trigger] resolution_ok(
                    assets@,
                    responses@,
                    out@,
                    max_attempts as int,
                    i as int,
                    b,
                ) by {
                    let kk = versions_before(assets@, i as int) + b;
                    if b < j {
                        assert(resolution_ok(
                            assets@,
                            responses@,
                            out0,
                            max_attempts as int,
                            i as int,
                            b,
                        ));
                        assert(out0.push(out@.last())[kk] == out0[kk]);
                    } else {
                        assert(out@[kk] == out@.last());
                    }
                }
            }
            j = j + 1;
        }
        proof {
            assert(versions_before(assets@, i + 1) == versions_before(assets@, i as int) + m);
            assert forall|a: int, b: int|
                0 <= a < i + 1 && 0 <= b < assets@[a].project_versions@.len()
                    implies #[trigger] resolution_ok(
                    assets@,
                    responses@,
                    out@,
                    max_attempts as int,
                    a,
                    b,
                ) by {
                if a == i {
                    assert(resolution_ok(
                        assets@,
                        responses@,
                        out@,
                        max_attempts as int,
                        i as int,
                        b,
                    ));
                }
            }
        }
        i = i + 1;
    }
    out
}

} // verus!
