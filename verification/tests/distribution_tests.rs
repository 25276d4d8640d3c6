use manifest_pipeline::distribution::DistFetchResult;
use manifest_pipeline::distribution::DownloadManifest;
use manifest_pipeline::distribution::VerificationOutcome;
use manifest_pipeline::distribution::downloaded_hash_field;
use manifest_pipeline::distribution::verify_distribution;
use manifest_pipeline::resolver::ManifestDescriptor;

fn manifest_with_hash(hash: &str) -> DownloadManifest {
    DownloadManifest {
        custom_fields: vec![
            ("SourceURL".to_string(), "https://cdn.example".to_string()),
            (downloaded_hash_field().to_string(), hash.to_string()),
        ],
    }
}

#[test]
fn custom_field_returns_first_value_under_key() {
    let m = manifest_with_hash("abc123");
    assert_eq!(m.custom_field(downloaded_hash_field()), Some("abc123".to_string()));
    assert_eq!(m.custom_field("SourceURL"), Some("https://cdn.example".to_string()));
    assert_eq!(m.custom_field("Missing"), None);
}

#[test]
fn verify_tries_every_url_without_short_circuit() {
    let descriptor = ManifestDescriptor {
        artifact_id: "art1".to_string(),
        manifest_hash: "expected".to_string(),
        distribution_point_base_urls: vec![
            "https://one".to_string(),
            "https://two".to_string(),
            "https://three".to_string(),
        ],
    };
    let results = vec![
        DistFetchResult::FetchFailed,
        DistFetchResult::Fetched(manifest_with_hash("expected")),
        DistFetchResult::Fetched(manifest_with_hash("different")),
    ];
    let outcomes = verify_distribution(&descriptor, results);
    assert_eq!(outcomes.len(), 3);
    match &outcomes[0] {
        VerificationOutcome::FetchFailed { url } => assert_eq!(url, "https://one"),
        other => panic!("expected a fetch failure, got {:?}", other),
    }
    match &outcomes[1] {
        VerificationOutcome::HashReport { url, expected, observed, hash_match } => {
            assert_eq!(url, "https://two");
            assert_eq!(expected, "expected");
            assert_eq!(observed, "expected");
            assert!(hash_match);
        }
        other => panic!("expected a hash report, got {:?}", other),
    }
    match &outcomes[2] {
        VerificationOutcome::HashReport { url, expected, observed, hash_match } => {
            assert_eq!(url, "https://three");
            assert_eq!(expected, "expected");
            assert_eq!(observed, "different");
            assert!(!hash_match);
        }
        other => panic!("expected a hash report, got {:?}", other),
    }
}

#[test]
fn verify_reports_absent_hash_field_as_empty() {
    let descriptor = ManifestDescriptor {
        artifact_id: "art1".to_string(),
        manifest_hash: "expected".to_string(),
        distribution_point_base_urls: vec!["https://one".to_string()],
    };
    let results = vec![DistFetchResult::Fetched(DownloadManifest { custom_fields: Vec::new() })];
    let outcomes = verify_distribution(&descriptor, results);
    assert_eq!(outcomes.len(), 1);
    match &outcomes[0] {
        VerificationOutcome::HashReport { expected, observed, hash_match, .. } => {
            assert_eq!(expected, "expected");
            assert_eq!(observed, "");
            assert!(!hash_match);
        }
        other => panic!("expected a hash report, got {:?}", other),
    }
}

#[test]
fn verify_empty_descriptor_yields_no_outcomes() {
    let descriptor = ManifestDescriptor {
        artifact_id: "art1".to_string(),
        manifest_hash: "expected".to_string(),
        distribution_point_base_urls: Vec::new(),
    };
    let outcomes = verify_distribution(&descriptor, Vec::new());
    assert!(outcomes.is_empty());
}
