use osm_gpui::interaction::dedupe_attributions;

#[test]
fn dedupe_attributions_keeps_first_occurrence_and_order() {
    let items = vec![
        ("OSM Carto".to_string(), Some("https://osm.org".to_string())),
        ("Imagery Inc".to_string(), None),
        ("OSM Carto".to_string(), Some("https://different.example".to_string())),
    ];
    let credits = dedupe_attributions(items);
    assert_eq!(
        credits,
        vec![
            ("OSM Carto".to_string(), Some("https://osm.org".to_string())),
            ("Imagery Inc".to_string(), None),
        ]
    );
}

#[test]
fn dedupe_attributions_empty_is_empty() {
    assert!(dedupe_attributions(Vec::new()).is_empty());
}

#[test]
fn dedupe_attributions_is_idempotent_and_keeps_distinct_texts() {
    let items = vec![
        ("A".to_string(), None),
        ("B".to_string(), Some("u".to_string())),
        ("A".to_string(), Some("v".to_string())),
        ("C".to_string(), None),
        ("B".to_string(), None),
    ];
    let once = dedupe_attributions(items);
    assert_eq!(
        once,
        vec![("A".to_string(), None), ("B".to_string(), Some("u".to_string())), ("C".to_string(), None)]
    );
    assert_eq!(dedupe_attributions(once.clone()), once);
}
