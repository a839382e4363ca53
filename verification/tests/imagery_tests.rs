use osm_gpui::imagery::{index_sources, parse_attribution, parse_feature_properties};

fn json(text: &str) -> serde_json::Value {
    serde_json::from_str(text).unwrap()
}

#[test]
fn attribution_string_form_parses() {
    let feature = json(
        r#"{
            "type": "Feature",
            "properties": {
                "id": "attr_string",
                "name": "Attr String",
                "type": "tms",
                "url": "https://example.com/{z}/{x}/{y}.png",
                "attribution": "© Example Contributors"
            },
            "geometry": null
        }"#,
    );
    let entry = parse_feature_properties(&feature).expect("should parse");
    let a = entry.attribution.unwrap();
    assert_eq!(a.text, "© Example Contributors");
    assert_eq!(a.url, None);
}

#[test]
fn attribution_object_form_parses() {
    let feature = json(
        r#"{
            "type": "Feature",
            "properties": {
                "id": "attr_object",
                "name": "Attr Object",
                "type": "tms",
                "url": "https://example.com/{z}/{x}/{y}.png",
                "attribution": {
                    "text": "© Example Contributors",
                    "url": "https://example.com/copyright"
                }
            },
            "geometry": null
        }"#,
    );
    let entry = parse_feature_properties(&feature).expect("should parse");
    let a = entry.attribution.unwrap();
    assert_eq!(a.text, "© Example Contributors");
    assert_eq!(a.url.as_deref(), Some("https://example.com/copyright"));
}

#[test]
fn attribution_absent_is_none() {
    let feature = json(
        r#"{
            "type": "Feature",
            "properties": {
                "id": "attr_absent",
                "name": "Attr Absent",
                "type": "tms",
                "url": "https://example.com/{z}/{x}/{y}.png"
            },
            "geometry": null
        }"#,
    );
    let entry = parse_feature_properties(&feature).expect("should parse");
    assert!(entry.attribution.is_none());
}

#[test]
fn attribution_text_is_trimmed_and_blank_is_dropped() {
    let a = parse_attribution(&json(r#""  \u00a0© X\n""#)).unwrap();
    assert_eq!(a.text, "© X");
    assert!(parse_attribution(&json(r#""   ""#)).is_none());
    assert!(parse_attribution(&json(r#"{"text": " ", "url": "u"}"#)).is_none());
    assert!(parse_attribution(&json(r#"{"url": "u"}"#)).is_none());
    assert!(parse_attribution(&json("42")).is_none());
    let a = parse_attribution(&json(r#"{"text": " T ", "url": 5}"#)).unwrap();
    assert_eq!(a.text, "T");
    assert!(a.url.is_none());
}

#[test]
fn only_usable_tms_sources_are_kept() {
    let wms = json(r#"{"properties": {"id": "w", "name": "W", "type": "wms", "url": "u"}}"#);
    assert!(parse_feature_properties(&wms).is_none());
    let overlay = json(r#"{"properties": {"type": "tms", "url": "u", "overlay": true}}"#);
    assert!(parse_feature_properties(&overlay).is_none());
    let no_url = json(r#"{"properties": {"type": "tms"}}"#);
    assert!(parse_feature_properties(&no_url).is_none());
    let no_props = json(r#"{"type": "Feature"}"#);
    assert!(parse_feature_properties(&no_props).is_none());
}

#[test]
fn source_defaults_and_zoom_levels() {
    let f = json(
        r#"{"properties": {"type": "tms", "url": "u", "overlay": false, "min_zoom": 2,
            "max_zoom": 19, "best": true, "country_code": "DE", "icon": "i.png"}}"#,
    );
    let p = parse_feature_properties(&f).unwrap();
    assert_eq!(p.name, "Unnamed imagery");
    assert_eq!(p.id, "Unnamed imagery");
    assert_eq!(p.url_template, "u");
    assert_eq!(p.min_zoom, Some(2));
    assert_eq!(p.max_zoom, Some(19));
    assert!(p.best);
    assert_eq!(p.country_code.as_deref(), Some("DE"));
    assert_eq!(p.icon_url.as_deref(), Some("i.png"));
    let g = json(r#"{"properties": {"type": "tms", "url": "u", "name": "N", "min_zoom": -1, "max_zoom": 4294967297}}"#);
    let p = parse_feature_properties(&g).unwrap();
    assert_eq!(p.id, "N");
    assert_eq!(p.min_zoom, None);
    assert_eq!(p.max_zoom, Some(1));
    assert!(!p.best);
}

#[test]
fn index_sources_keeps_usable_features_in_order_with_their_index() {
    let body = r#"{
        "type": "FeatureCollection",
        "features": [
            {"type": "Feature", "properties": {"id": "a", "name": "A", "type": "tms", "url": "https://a/{z}/{x}/{y}"}, "geometry": null},
            {"type": "Feature", "properties": {"id": "wms", "name": "W", "type": "wms", "url": "https://w"}, "geometry": null},
            {"type": "Feature", "properties": {"id": "ov", "name": "O", "type": "tms", "url": "https://o", "overlay": true}, "geometry": null},
            {"type": "Feature", "geometry": null},
            {"type": "Feature", "properties": {"name": "B", "type": "tms", "url": "https://b/{z}/{x}/{y}", "best": true}, "geometry": null}
        ]
    }"#;
    let got = index_sources(body);
    let summary: Vec<(usize, String, bool)> = got.iter().map(|(i, p)| (*i, p.id.clone(), p.best)).collect();
    assert_eq!(summary, vec![(0, "a".to_string(), false), (4, "B".to_string(), true)]);
}

#[test]
fn index_sources_of_bad_bodies_is_empty() {
    assert!(index_sources("not json").is_empty());
    assert!(index_sources(r#"{"type": "FeatureCollection"}"#).is_empty());
    assert!(index_sources(r#"{"features": {"a": 1}}"#).is_empty());
    assert!(index_sources(r#"[1, 2]"#).is_empty());
}
