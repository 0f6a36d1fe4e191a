use btcmap::{
    count_kinds, normalize_element, normalize_elements, parse_kind, ElementKind, NormalizeError,
    NormalizedElement, RawElement, RawTags,
};

fn text(s: &str) -> Option<String> {
    Some(s.to_string())
}

fn raw(id: Option<i64>, kind: &str) -> RawElement {
    RawElement {
        id,
        kind: text(kind),
        lat: None,
        lon: None,
        center_lat: None,
        center_lon: None,
        tags: RawTags::Missing,
    }
}

fn raw_node(id: i64, lat: &str, lon: &str) -> RawElement {
    RawElement { lat: text(lat), lon: text(lon), ..raw(Some(id), "node") }
}

fn raw_way(id: i64, lat: &str, lon: &str) -> RawElement {
    RawElement { center_lat: text(lat), center_lon: text(lon), ..raw(Some(id), "way") }
}

fn normalized(id: i64, lat: &str, lon: &str, tags: &str) -> NormalizedElement {
    NormalizedElement { id, lat: lat.to_string(), lon: lon.to_string(), tags: tags.to_string() }
}

#[test]
fn point_element_normalizes_with_empty_tags() {
    let r = RawElement { tags: RawTags::Object("{}".to_string()), ..raw_node(1, "10", "20") };
    assert_eq!(normalize_elements(&vec![r]), Ok(vec![normalized(1, "10", "20", "{}")]));
}

#[test]
fn missing_tags_become_an_empty_object() {
    let fresh = normalize_elements(&vec![raw_node(7, "1.5", "-2.25")]).unwrap();
    assert_eq!(fresh, vec![normalized(7, "1.5", "-2.25", "{}")]);
}

#[test]
fn tags_that_are_not_an_object_are_malformed() {
    let r = RawElement { tags: RawTags::NotAnObject, ..raw_node(1, "1", "2") };
    assert_eq!(normalize_element(&r), None);
    assert_eq!(normalize_elements(&vec![raw_node(2, "0", "0"), r]), Err(NormalizeError::MalformedElement(1)));
}

#[test]
fn tags_text_is_kept() {
    let r = RawElement { tags: RawTags::Object(r#"{"amenity":"cafe","name":"Cafe"}"#.to_string()), ..raw_node(3, "1", "2") };
    assert_eq!(normalize_element(&r), Some(normalized(3, "1", "2", r#"{"amenity":"cafe","name":"Cafe"}"#)));
}

#[test]
fn way_uses_its_center() {
    let r = RawElement { tags: RawTags::Object(r#"{"shop":"books"}"#.to_string()), ..raw_way(2, "1.25", "3.5") };
    assert_eq!(normalize_elements(&vec![r]), Ok(vec![normalized(2, "1.25", "3.5", r#"{"shop":"books"}"#)]));
}

#[test]
fn relation_uses_its_center() {
    let r = RawElement {
        lat: text("5"),
        lon: text("6"),
        center_lat: text("7"),
        center_lon: text("8"),
        ..raw(Some(9), "relation")
    };
    assert_eq!(normalize_element(&r), Some(normalized(9, "7", "8", "{}")));
}

#[test]
fn way_without_center_is_malformed() {
    assert_eq!(normalize_elements(&vec![raw(Some(2), "way")]), Err(NormalizeError::MalformedElement(0)));
}

#[test]
fn way_with_only_direct_coordinates_is_malformed() {
    let way = RawElement { lat: text("1"), lon: text("2"), ..raw(Some(2), "way") };
    assert_eq!(normalize_elements(&vec![raw_node(1, "1", "2"), way]), Err(NormalizeError::MalformedElement(1)));
}

#[test]
fn node_without_coordinates_is_malformed() {
    let r = RawElement { lat: text("1"), ..raw(Some(1), "node") };
    assert_eq!(normalize_elements(&vec![r]), Err(NormalizeError::MalformedElement(0)));
}

#[test]
fn element_without_id_is_malformed() {
    let r = RawElement { id: None, ..raw_node(1, "1", "2") };
    assert_eq!(normalize_elements(&vec![r]), Err(NormalizeError::MalformedElement(0)));
}

#[test]
fn unknown_type_is_malformed() {
    let r = RawElement { kind: text("area"), ..raw_node(1, "1", "2") };
    assert_eq!(normalize_elements(&vec![r]), Err(NormalizeError::MalformedElement(0)));
    let r = RawElement { kind: None, ..raw_node(1, "1", "2") };
    assert_eq!(normalize_elements(&vec![r]), Err(NormalizeError::MalformedElement(0)));
}

#[test]
fn duplicate_ids_reject_the_snapshot() {
    let raws = vec![raw_node(4, "1", "2"), raw_way(4, "1", "2")];
    assert_eq!(normalize_elements(&raws), Err(NormalizeError::DuplicateElement(4)));
}

#[test]
fn first_fault_wins() {
    let no_id = RawElement { id: None, ..raw_node(2, "0", "0") };
    let raws = vec![raw_node(1, "0", "0"), raw_node(1, "0", "0"), no_id.clone()];
    assert_eq!(normalize_elements(&raws), Err(NormalizeError::DuplicateElement(1)));
    let raws = vec![raw_node(1, "0", "0"), no_id, raw_node(1, "0", "0")];
    assert_eq!(normalize_elements(&raws), Err(NormalizeError::MalformedElement(1)));
}

#[test]
fn empty_snapshot_normalizes_to_nothing() {
    assert_eq!(normalize_elements(&vec![]), Ok(vec![]));
}

#[test]
fn kinds_are_counted() {
    let raws = vec![
        raw(Some(1), "node"),
        raw(Some(2), "point"),
        raw(Some(3), "way"),
        raw(Some(4), "relation"),
        raw(Some(5), "area"),
        RawElement { kind: None, ..raw(Some(6), "node") },
    ];
    let counts = count_kinds(&raws);
    assert_eq!((counts.points, counts.ways, counts.relations), (2, 1, 1));
}

#[test]
fn kind_names() {
    assert_eq!(parse_kind(&"node".to_string()), Some(ElementKind::Point));
    assert_eq!(parse_kind(&"point".to_string()), Some(ElementKind::Point));
    assert_eq!(parse_kind(&"way".to_string()), Some(ElementKind::Way));
    assert_eq!(parse_kind(&"relation".to_string()), Some(ElementKind::Relation));
    assert_eq!(parse_kind(&"Node".to_string()), None);
    assert_eq!(parse_kind(&"".to_string()), None);
}
