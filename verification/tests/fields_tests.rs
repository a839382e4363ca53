use osm_gpui::fields::{
    join_values, multi_value_added, multi_value_removed, multi_values, resolve_fields,
    resolve_more_fields, FieldIndex, FieldType,
};

const FIXTURE: &str = r#"
[
  {
    "id": "name",
    "key": "name",
    "field_type": "text",
    "label": "Name",
    "placeholder": "Common name"
  },
  {
    "id": "cuisine",
    "key": "cuisine",
    "field_type": "combo",
    "label": "Cuisine",
    "options": [
      {"value": "coffee_shop", "label": "Coffee Shop"},
      {"value": "pizza", "label": "Pizza"}
    ]
  }
]
"#;

#[test]
fn from_json_parses_all_entries() {
    let index = FieldIndex::from_json(FIXTURE).unwrap();
    assert_eq!(index.len(), 2);
    assert!(!index.is_empty());
}

#[test]
fn get_finds_field_by_id() {
    let index = FieldIndex::from_json(FIXTURE).unwrap();
    let name = index.get("name").unwrap();
    assert_eq!(name.key, "name");
    assert_eq!(name.field_type, FieldType::Text);
    assert_eq!(name.placeholder.as_deref(), Some("Common name"));
}

#[test]
fn get_returns_none_for_unknown_id() {
    let index = FieldIndex::from_json(FIXTURE).unwrap();
    assert!(index.get("not-a-real-field").is_none());
}

#[test]
fn combo_field_parses_options() {
    let index = FieldIndex::from_json(FIXTURE).unwrap();
    let cuisine = index.get("cuisine").unwrap();
    assert_eq!(cuisine.field_type, FieldType::Combo);
    assert_eq!(cuisine.options.len(), 2);
    assert_eq!(cuisine.options[0].value, "coffee_shop");
    assert_eq!(cuisine.options[0].label, "Coffee Shop");
}

#[test]
fn from_json_rejects_malformed_body() {
    assert!(FieldIndex::from_json("not json").is_err());
}

#[test]
fn from_json_rejects_malformed_fields() {
    assert!(FieldIndex::from_json(r#"{"id": "x"}"#).is_err());
    assert!(FieldIndex::from_json(r#"[{"id": "x", "key": "x", "label": "X"}]"#).is_err());
    assert!(FieldIndex::from_json(r#"[{"id": "x", "key": "x", "label": "X", "field_type": "slider"}]"#).is_err());
    assert!(FieldIndex::from_json(r#"[{"id": "x", "key": "x", "label": "X", "field_type": "text", "placeholder": 3}]"#).is_err());
    assert!(FieldIndex::from_json(r#"[{"id": "x", "key": "x", "label": "X", "field_type": "radio", "options": [{"value": "a"}]}]"#).is_err());
}

#[test]
fn from_json_reads_every_field_type_and_null_placeholder() {
    let body = r#"[
        {"id": "a", "key": "a", "label": "A", "field_type": "check", "placeholder": null},
        {"id": "b", "key": "b", "label": "B", "field_type": "radio", "extra": 1},
        {"id": "c", "key": "c", "label": "C", "field_type": "multiCombo"}
    ]"#;
    let index = FieldIndex::from_json(body).unwrap();
    assert_eq!(index.get("a").unwrap().field_type, FieldType::Check);
    assert!(index.get("a").unwrap().placeholder.is_none());
    assert_eq!(index.get("b").unwrap().field_type, FieldType::Radio);
    assert_eq!(index.get("c").unwrap().field_type, FieldType::MultiCombo);
    assert!(index.get("c").unwrap().options.is_empty());
}

#[test]
fn from_json_later_duplicate_id_replaces_earlier() {
    let body = r#"[
        {"id": "a", "key": "first", "label": "A", "field_type": "text"},
        {"id": "b", "key": "b", "label": "B", "field_type": "text"},
        {"id": "a", "key": "second", "label": "A", "field_type": "text"}
    ]"#;
    let index = FieldIndex::from_json(body).unwrap();
    assert_eq!(index.len(), 2);
    assert_eq!(index.get("a").unwrap().key, "second");
}

#[test]
fn empty_array_is_an_empty_index() {
    let index = FieldIndex::from_json("[]").unwrap();
    assert_eq!(index.len(), 0);
    assert!(index.is_empty());
}

#[test]
fn resolve_fields_returns_in_order() {
    let index = FieldIndex::from_json(FIXTURE).unwrap();
    let ids = vec!["cuisine".to_string(), "name".to_string()];
    let resolved = resolve_fields(&index, &ids);
    assert_eq!(resolved.len(), 2);
    assert_eq!(resolved[0].id, "cuisine");
    assert_eq!(resolved[1].id, "name");
}

#[test]
fn resolve_fields_skips_missing_ids() {
    let index = FieldIndex::from_json(FIXTURE).unwrap();
    let ids = vec!["name".to_string(), "not-a-real-field".to_string()];
    let resolved = resolve_fields(&index, &ids);
    assert_eq!(resolved.len(), 1);
    assert_eq!(resolved[0].id, "name");
}

#[test]
fn resolve_more_fields_excludes_already_shown() {
    let index = FieldIndex::from_json(FIXTURE).unwrap();
    let more_ids = vec!["name".to_string(), "cuisine".to_string()];
    let already_shown = vec!["name".to_string()];
    let resolved = resolve_more_fields(&index, &more_ids, &already_shown);
    assert_eq!(resolved.len(), 1);
    assert_eq!(resolved[0].id, "cuisine");
}

#[test]
fn resolve_more_fields_keeps_order_and_skips_unknown() {
    let index = FieldIndex::from_json(FIXTURE).unwrap();
    let more_ids = vec!["cuisine".to_string(), "x".to_string(), "name".to_string()];
    let resolved = resolve_more_fields(&index, &more_ids, &[]);
    let ids: Vec<&str> = resolved.iter().map(|f| f.id.as_str()).collect();
    assert_eq!(ids, vec!["cuisine", "name"]);
}

#[test]
fn multi_values_are_trimmed_and_empty_pieces_dropped() {
    assert_eq!(multi_values("a; b;;c "), vec!["a".to_string(), "b".to_string(), "c".to_string()]);
    assert_eq!(multi_values(""), Vec::<String>::new());
    assert_eq!(multi_values(" ; ;"), Vec::<String>::new());
    assert_eq!(multi_values("single"), vec!["single".to_string()]);
}

#[test]
fn join_values_puts_semicolons_between() {
    let vals = vec!["a".to_string(), "b".to_string(), "c".to_string()];
    assert_eq!(join_values(&vals), "a;b;c");
    assert_eq!(join_values(&Vec::new()), "");
    assert_eq!(join_values(&vec!["x".to_string()]), "x");
}

#[test]
fn removing_a_multi_value_keeps_the_others_in_order() {
    assert_eq!(multi_value_removed("a; b;;c ", "b"), "a;c");
    assert_eq!(multi_value_removed("a;b;a", "a"), "b");
    assert_eq!(multi_value_removed("a;b", "z"), "a;b");
    assert_eq!(multi_value_removed("a", "a"), "");
}

#[test]
fn adding_a_multi_value_appends_it() {
    assert_eq!(multi_value_added("a", "d"), "a;d");
    assert_eq!(multi_value_added(" a ;; b", "d"), "a;b;d");
    assert_eq!(multi_value_added("", "d"), "d");
}
