use btcmap::{
    reconcile, sync_snapshot, synchronize, Action, ApplyError, NormalizeError, NormalizedElement,
    Place, PlaceRepository, RawElement, RawTags, SyncError,
};

fn element(id: i64, tags: &str) -> NormalizedElement {
    NormalizedElement { id, lat: "10".to_string(), lon: "20".to_string(), tags: tags.to_string() }
}

fn place(id: i64, tags: &str, at: i64, deleted_at: Option<i64>) -> Place {
    Place {
        id,
        lat: "10".to_string(),
        lon: "20".to_string(),
        tags: tags.to_string(),
        created_at: at,
        updated_at: at,
        deleted_at,
    }
}

#[test]
fn new_point_is_inserted() {
    let fresh = vec![element(1, "{}")];
    let mut repo = PlaceRepository::new();
    let actions = reconcile(&fresh, &repo.select_all(), 100);
    assert_eq!(actions, vec![Action::Insert { element: element(1, "{}"), at: 100 }]);
    assert_eq!(repo.apply(&actions), Ok(()));
    let p = repo.select_by_id(1).unwrap();
    assert_eq!(p.created_at, p.updated_at);
    assert_eq!(p.deleted_at, None);
    assert_eq!(p, place(1, "{}", 100, None));
}

#[test]
fn changed_tags_are_updated() {
    let mut repo = PlaceRepository::from_places(vec![place(1, r#"{"amenity":"cafe"}"#, 100, None)]).unwrap();
    let fresh = vec![element(1, r#"{"amenity":"bar"}"#)];
    let actions = synchronize(&mut repo, &fresh, 200).unwrap();
    assert_eq!(
        actions,
        vec![Action::UpdateTags { id: 1, tags: r#"{"amenity":"bar"}"#.to_string(), at: 200 }]
    );
    let p = repo.select_by_id(1).unwrap();
    assert_eq!(p.tags, r#"{"amenity":"bar"}"#);
    assert!(p.updated_at > p.created_at);
    assert_eq!(p.updated_at, 200);
}

#[test]
fn vanished_place_is_soft_deleted() {
    let mut repo = PlaceRepository::from_places(vec![place(1, "{}", 100, None)]).unwrap();
    let actions = synchronize(&mut repo, &vec![], 300).unwrap();
    assert_eq!(actions, vec![Action::SoftDelete { id: 1, at: 300 }]);
    let p = repo.select_by_id(1).unwrap();
    assert_eq!(p.deleted_at, Some(300));
    assert_eq!(p.tags, "{}");
}

#[test]
fn already_deleted_place_is_left_alone() {
    let cached = vec![place(1, "{}", 100, Some(150)), place(2, "{}", 100, None)];
    let actions = reconcile(&vec![element(2, "{}")], &cached, 300);
    assert_eq!(actions, vec![]);
}

#[test]
fn second_pass_is_idempotent() {
    let mut repo = PlaceRepository::from_places(vec![
        place(1, r#"{"amenity":"cafe"}"#, 100, None),
        place(2, "{}", 100, None),
        place(3, "{}", 100, Some(120)),
    ])
    .unwrap();
    let fresh = vec![element(1, r#"{"amenity":"bar"}"#), element(4, "{}"), element(3, r#"{"a":"b"}"#)];
    let first = synchronize(&mut repo, &fresh, 200).unwrap();
    assert_eq!(first.len(), 4);
    let second = synchronize(&mut repo, &fresh, 300).unwrap();
    assert_eq!(second, vec![]);
}

#[test]
fn tag_change_yields_one_update() {
    let cached = vec![place(1, r#"{"amenity":"cafe"}"#, 100, None)];
    let fresh = vec![element(1, r#"{"amenity":"cafe","phone":"123"}"#)];
    let actions = reconcile(&fresh, &cached, 200);
    assert_eq!(
        actions,
        vec![Action::UpdateTags { id: 1, tags: r#"{"amenity":"cafe","phone":"123"}"#.to_string(), at: 200 }]
    );
}

#[test]
fn identical_tags_yield_no_update() {
    let cached = vec![place(1, r#"{"amenity":"cafe"}"#, 100, None)];
    let fresh = vec![element(1, r#"{"amenity":"cafe"}"#)];
    assert_eq!(reconcile(&fresh, &cached, 200), vec![]);
}

#[test]
fn deletes_come_before_upserts() {
    let cached = vec![place(5, "{}", 1, None), place(6, "{}", 1, None), place(7, "{}", 1, None)];
    let fresh = vec![element(8, "{}"), element(6, r#"{"x":"y"}"#)];
    let actions = reconcile(&fresh, &cached, 9);
    assert_eq!(
        actions,
        vec![
            Action::SoftDelete { id: 5, at: 9 },
            Action::SoftDelete { id: 7, at: 9 },
            Action::Insert { element: element(8, "{}"), at: 9 },
            Action::UpdateTags { id: 6, tags: r#"{"x":"y"}"#.to_string(), at: 9 },
        ]
    );
}

#[test]
fn deleted_place_stays_deleted_when_it_reappears() {
    let mut repo = PlaceRepository::from_places(vec![place(1, "{}", 100, Some(150))]).unwrap();
    let actions = synchronize(&mut repo, &vec![element(1, r#"{"k":"v"}"#)], 200).unwrap();
    assert_eq!(actions, vec![Action::UpdateTags { id: 1, tags: r#"{"k":"v"}"#.to_string(), at: 200 }]);
    let p = repo.select_by_id(1).unwrap();
    assert_eq!(p.deleted_at, Some(150));
    synchronize(&mut repo, &vec![], 300).unwrap();
    assert_eq!(repo.select_by_id(1).unwrap().deleted_at, Some(150));
}

#[test]
fn failed_pass_leaves_store_unchanged() {
    let mut repo = PlaceRepository::from_places(vec![place(1, r#"{"a":"b"}"#, 500, None), place(2, "{}", 1, None)]).unwrap();
    let before = repo.select_all();
    let result = synchronize(&mut repo, &vec![element(3, "{}"), element(1, r#"{"a":"c"}"#)], 400);
    assert_eq!(result, Err(ApplyError::StaleTimestamp(1)));
    assert_eq!(repo.select_all(), before);
}

fn raw_node(id: i64, tags: RawTags) -> RawElement {
    RawElement {
        id: Some(id),
        kind: Some("node".to_string()),
        lat: Some("10".to_string()),
        lon: Some("20".to_string()),
        center_lat: None,
        center_lon: None,
        tags,
    }
}

#[test]
fn sync_snapshot_runs_a_whole_pass() {
    let mut repo = PlaceRepository::from_places(vec![place(1, "{}", 100, None), place(2, "{}", 100, None)]).unwrap();
    let way = RawElement {
        id: Some(3),
        kind: Some("way".to_string()),
        lat: None,
        lon: None,
        center_lat: Some("1".to_string()),
        center_lon: Some("2".to_string()),
        tags: RawTags::Missing,
    };
    let raws = vec![raw_node(2, RawTags::Object(r#"{"a":"2","b":"1"}"#.to_string())), way];
    let actions = sync_snapshot(&mut repo, &raws, 200).unwrap();
    assert_eq!(
        actions,
        vec![
            Action::SoftDelete { id: 1, at: 200 },
            Action::UpdateTags { id: 2, tags: r#"{"a":"2","b":"1"}"#.to_string(), at: 200 },
            Action::Insert {
                element: NormalizedElement { id: 3, lat: "1".to_string(), lon: "2".to_string(), tags: "{}".to_string() },
                at: 200,
            },
        ]
    );
    let after = repo.select_all();
    assert_eq!(sync_snapshot(&mut repo, &raws, 300), Ok(vec![]));
    assert_eq!(repo.select_all(), after);
}

#[test]
fn malformed_snapshot_leaves_store_unchanged() {
    let mut repo = PlaceRepository::from_places(vec![place(1, "{}", 100, None)]).unwrap();
    let before = repo.select_all();
    let raws = vec![raw_node(2, RawTags::Missing), raw_node(3, RawTags::NotAnObject)];
    assert_eq!(
        sync_snapshot(&mut repo, &raws, 200),
        Err(SyncError::Normalize(NormalizeError::MalformedElement(1)))
    );
    let raws = vec![raw_node(2, RawTags::Missing), raw_node(2, RawTags::Missing)];
    assert_eq!(
        sync_snapshot(&mut repo, &raws, 200),
        Err(SyncError::Normalize(NormalizeError::DuplicateElement(2)))
    );
    assert_eq!(repo.select_all(), before);
}

#[test]
fn failed_apply_in_sync_snapshot_leaves_store_unchanged() {
    let mut repo = PlaceRepository::from_places(vec![place(1, "{}", 500, None)]).unwrap();
    let before = repo.select_all();
    let raws = vec![raw_node(1, RawTags::Object(r#"{"a":"b"}"#.to_string()))];
    assert_eq!(sync_snapshot(&mut repo, &raws, 400), Err(SyncError::Apply(ApplyError::StaleTimestamp(1))));
    assert_eq!(repo.select_all(), before);
}

#[test]
fn target_ids() {
    assert_eq!(Action::Insert { element: element(4, "{}"), at: 1 }.target_id(), 4);
    assert_eq!(Action::UpdateTags { id: 5, tags: "{}".to_string(), at: 1 }.target_id(), 5);
    assert_eq!(Action::SoftDelete { id: 6, at: 1 }.target_id(), 6);
    assert!(place(1, "{}", 1, None).is_live());
    assert!(!place(1, "{}", 1, Some(2)).is_live());
}

#[test]
fn identical_tags_leave_the_stored_place_unchanged() {
    let stored = place(1, r#"{"amenity":"cafe"}"#, 100, None);
    let mut repo = PlaceRepository::from_places(vec![stored.clone()]).unwrap();
    let fresh = vec![NormalizedElement {
        id: 1,
        lat: "11".to_string(),
        lon: "21".to_string(),
        tags: r#"{"amenity":"cafe"}"#.to_string(),
    }];
    assert_eq!(synchronize(&mut repo, &fresh, 200), Ok(vec![]));
    assert_eq!(repo.select_by_id(1), Some(stored));
}
