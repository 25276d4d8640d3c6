use manifest_pipeline::catalog::CatalogIndex;
use manifest_pipeline::catalog::Entitlement;
use manifest_pipeline::catalog::classify;

fn ent(namespace: &str, catalog_item_id: &str, app_name: &str) -> Entitlement {
    Entitlement {
        namespace: namespace.to_string(),
        catalog_item_id: catalog_item_id.to_string(),
        app_name: app_name.to_string(),
    }
}

fn total_entries(groups: &Vec<manifest_pipeline::catalog::AssetGroup>) -> usize {
    groups.iter().map(|g| g.entries.len()).sum()
}

#[test]
fn classify_empty_input() {
    let idx: CatalogIndex = classify(&Vec::new());
    assert_eq!(idx.engine.len(), 0);
    assert_eq!(idx.non_engine.len(), 0);
}

#[test]
fn classify_partitions_by_namespace() {
    let input = vec![
        ent("ue", "cat1", "appA"),
        ent("fortnite", "cat2", "appB"),
        ent("ue", "cat3", "appC"),
        ent("other", "cat4", "appD"),
    ];
    let idx = classify(&input);
    assert_eq!(idx.engine.len(), 2);
    assert_eq!(idx.non_engine.len(), 2);
    for g in idx.engine.iter() {
        for e in g.entries.iter() {
            assert_eq!(e.namespace, "ue");
        }
    }
    for g in idx.non_engine.iter() {
        for e in g.entries.iter() {
            assert_ne!(e.namespace, "ue");
        }
    }
    assert_eq!(total_entries(&idx.engine) + total_entries(&idx.non_engine), 4);
}

#[test]
fn classify_dedup_last_wins() {
    let first = ent("ue", "cat1", "appA");
    let mut second = ent("ue", "cat1", "appA");
    second.namespace = "ue".to_string();
    let input = vec![first, second];
    let idx = classify(&input);
    assert_eq!(idx.engine.len(), 1);
    assert_eq!(idx.engine[0].entries.len(), 1);
    assert_eq!(idx.engine[0].entries[0].catalog_item_id, "cat1");
    assert_eq!(idx.engine[0].entries[0].app_name, "appA");
    assert_eq!(idx.non_engine.len(), 0);
}

#[test]
fn classify_groups_by_catalog_item() {
    let input = vec![
        ent("x", "cat1", "appA"),
        ent("x", "cat1", "appB"),
        ent("x", "cat2", "appA"),
    ];
    let idx = classify(&input);
    assert_eq!(idx.non_engine.len(), 2);
    assert_eq!(idx.non_engine[0].catalog_item_id, "cat1");
    assert_eq!(idx.non_engine[0].entries.len(), 2);
    assert_eq!(idx.non_engine[1].catalog_item_id, "cat2");
    assert_eq!(idx.non_engine[1].entries.len(), 1);
}

#[test]
fn classify_sizes_count_dedup_collapses() {
    let input = vec![
        ent("x", "cat1", "appA"),
        ent("x", "cat1", "appA"),
        ent("x", "cat1", "appA"),
        ent("ue", "cat2", "appB"),
    ];
    let idx = classify(&input);
    assert_eq!(total_entries(&idx.engine), 1);
    assert_eq!(total_entries(&idx.non_engine), 1);
}

#[test]
fn representatives_take_last_entry_per_group() {
    let input = vec![
        ent("x", "cat1", "appA"),
        ent("x", "cat1", "appB"),
        ent("y", "cat2", "appC"),
    ];
    let idx = classify(&input);
    let reps = idx.non_engine_representatives();
    assert_eq!(reps.len(), 2);
    assert_eq!(reps[0].catalog_item_id, "cat1");
    assert_eq!(reps[0].app_name, "appB");
    assert_eq!(reps[1].catalog_item_id, "cat2");
    assert_eq!(reps[1].app_name, "appC");
}
