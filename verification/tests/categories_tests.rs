use manifest_pipeline::categories::AssetInfo;
use manifest_pipeline::categories::Category;
use manifest_pipeline::categories::aggregate_categories;

fn info(paths: &[&str]) -> Option<AssetInfo> {
    Some(AssetInfo {
        categories: Some(
            paths.iter().map(|p| Category { path: p.to_string() }).collect(),
        ),
    })
}

#[test]
fn aggregate_sorts_and_dedups() {
    let infos = vec![info(&["b/x"]), info(&["a/y", "a/y"])];
    let listing = aggregate_categories(&infos);
    assert_eq!(listing, vec!["a/y".to_string(), "b/x".to_string()]);
}

#[test]
fn aggregate_is_order_independent() {
    let one = vec![info(&["b/x", "a/y"]), info(&["c/z"])];
    let two = vec![info(&["c/z"]), info(&["a/y"]), info(&["b/x", "a/y"])];
    assert_eq!(aggregate_categories(&one), aggregate_categories(&two));
}

#[test]
fn aggregate_is_idempotent() {
    let infos = vec![info(&["b/x", "a/y", "a/y"])];
    let once = aggregate_categories(&infos);
    let again_input = vec![info(
        &once.iter().map(|s| s.as_str()).collect::<Vec<&str>>(),
    )];
    let twice = aggregate_categories(&again_input);
    assert_eq!(once, twice);
}

#[test]
fn aggregate_skips_absent_metadata() {
    let infos = vec![
        None,
        Some(AssetInfo { categories: None }),
        info(&["assets/props"]),
    ];
    let listing = aggregate_categories(&infos);
    assert_eq!(listing, vec!["assets/props".to_string()]);
}

#[test]
fn aggregate_empty_input_gives_empty_listing() {
    let infos: Vec<Option<AssetInfo>> = Vec::new();
    let listing = aggregate_categories(&infos);
    assert!(listing.is_empty());
}

#[test]
fn aggregate_shared_categories_collapse() {
    let infos = vec![info(&["shared"]), info(&["shared"]), info(&["shared", "extra"])];
    let listing = aggregate_categories(&infos);
    assert_eq!(listing, vec!["extra".to_string(), "shared".to_string()]);
}
