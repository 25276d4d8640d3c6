use manifest_pipeline::pipeline::AssetRecord;
use manifest_pipeline::pipeline::ProjectVersion;
use manifest_pipeline::pipeline::resolve_library;
use manifest_pipeline::resolver::FetchResult;
use manifest_pipeline::resolver::ManifestDescriptor;
use manifest_pipeline::resolver::ResolveError;

fn success(artifact: &str) -> FetchResult {
    FetchResult::Success(ManifestDescriptor {
        artifact_id: artifact.to_string(),
        manifest_hash: format!("hash-{}", artifact),
        distribution_point_base_urls: vec!["https://cdn".to_string()],
    })
}

fn asset(title: &str, namespace: &str, id: &str, artifacts: &[&str]) -> AssetRecord {
    AssetRecord {
        title: title.to_string(),
        asset_namespace: namespace.to_string(),
        asset_id: id.to_string(),
        project_versions: artifacts
            .iter()
            .map(|a| ProjectVersion { artifact_id: a.to_string() })
            .collect(),
    }
}

#[test]
fn library_resolves_all_versions_in_order() {
    let assets = vec![
        asset("Engine Asset", "ue", "asset-1", &["eng-v1", "eng-v2"]),
        asset("Plain Asset", "fab", "asset-2", &["plain-v1"]),
    ];
    let responses = vec![
        vec![success("eng-v1")],
        vec![success("eng-v2")],
        vec![success("plain-v1")],
    ];
    let resolutions = resolve_library(&assets, &responses, 3);
    assert_eq!(resolutions.len(), 3);
    let expected = ["eng-v1", "eng-v2", "plain-v1"];
    for (record, artifact) in resolutions.iter().zip(expected.iter()) {
        assert_eq!(record.artifact_id, *artifact);
        assert_eq!(record.attempts, 1);
        let d = record.outcome.as_ref().expect("first resolution should succeed");
        assert_eq!(d.artifact_id, *artifact);
    }
}

#[test]
fn library_failure_is_scoped_to_one_version() {
    let assets = vec![asset("Mixed Asset", "fab", "asset-1", &["v1", "v2", "v3"])];
    let responses = vec![
        vec![success("v1")],
        vec![FetchResult::PermanentBackend],
        vec![FetchResult::TransientBackend, success("v3")],
    ];
    let resolutions = resolve_library(&assets, &responses, 3);
    assert_eq!(resolutions.len(), 3);
    assert!(resolutions[0].outcome.is_ok());
    assert_eq!(
        resolutions[1].outcome.as_ref().unwrap_err(),
        &ResolveError::PermanentBackend,
    );
    assert_eq!(resolutions[1].attempts, 1);
    assert!(resolutions[2].outcome.is_ok());
    assert_eq!(resolutions[2].attempts, 2);
}

#[test]
fn library_with_no_assets_resolves_nothing() {
    let resolutions = resolve_library(&Vec::new(), &Vec::new(), 3);
    assert!(resolutions.is_empty());
}
