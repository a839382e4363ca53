use osm_gpui::data::{convert_geometry, FeatureGeometry};
use osm_gpui::osm::Coord;

fn json(text: &str) -> serde_json::Value {
    serde_json::from_str(text).unwrap()
}

fn c(v: f64) -> Coord {
    Coord(v.to_bits())
}

fn err(kind: &str, coords: &str) -> String {
    match convert_geometry(kind, &json(coords)) {
        Err(e) => e,
        Ok(g) => panic!("expected an error, got {:?}", g),
    }
}

#[test]
fn point_reads_lon_then_lat() {
    match convert_geometry("Point", &json("[-74.5, 40.25, 10]")).unwrap() {
        FeatureGeometry::Point { lat, lon } => {
            assert_eq!(lat, c(40.25));
            assert_eq!(lon, c(-74.5));
        }
        other => panic!("{:?}", other),
    }
    match convert_geometry("Point", &json("[3, 4]")).unwrap() {
        FeatureGeometry::Point { lat, lon } => {
            assert_eq!(lat, c(4.0));
            assert_eq!(lon, c(3.0));
        }
        other => panic!("{:?}", other),
    }
}

#[test]
fn point_errors() {
    assert_eq!(err("Point", "{}"), "Invalid Point coordinates");
    assert_eq!(err("Point", "[1]"), "Point must have at least 2 coordinates");
    assert_eq!(err("Point", "[\"a\", 1]"), "Invalid longitude");
    assert_eq!(err("Point", "[1, null]"), "Invalid latitude");
}

#[test]
fn line_string_skips_short_positions() {
    match convert_geometry("LineString", &json("[[1, 2], [3], [5, 6]]")).unwrap() {
        FeatureGeometry::LineString { points } => {
            assert_eq!(points, vec![(c(2.0), c(1.0)), (c(6.0), c(5.0))]);
        }
        other => panic!("{:?}", other),
    }
    assert_eq!(err("LineString", "3"), "Invalid LineString coordinates");
    assert_eq!(err("LineString", "[[1, 2], 7]"), "Invalid coordinate in LineString");
    assert_eq!(err("LineString", "[[1, 2], [true, 2]]"), "Invalid longitude");
}

#[test]
fn polygon_reads_exterior_and_holes() {
    match convert_geometry("Polygon", &json("[[[0, 0], [0, 1], [1, 1]], [[0.5, 0.5]], [[0.2, 0.3], [0.4, 0.5]]]")).unwrap() {
        FeatureGeometry::Polygon { exterior, holes } => {
            assert_eq!(exterior, vec![(c(0.0), c(0.0)), (c(1.0), c(0.0)), (c(1.0), c(1.0))]);
            assert_eq!(holes, vec![vec![(c(0.5), c(0.5))], vec![(c(0.3), c(0.2)), (c(0.5), c(0.4))]]);
        }
        other => panic!("{:?}", other),
    }
    assert_eq!(err("Polygon", "\"x\""), "Invalid Polygon coordinates");
    assert_eq!(err("Polygon", "[]"), "Polygon must have at least one ring");
    assert_eq!(err("Polygon", "[3]"), "Invalid exterior ring");
    assert_eq!(err("Polygon", "[[3]]"), "Invalid coordinate in Polygon");
    assert_eq!(err("Polygon", "[[[0, 0]], 5]"), "Invalid hole ring");
    assert_eq!(err("Polygon", "[[[0, 0]], [[1, 1], 2]]"), "Invalid coordinate in hole");
}

#[test]
fn other_types_are_unsupported() {
    assert_eq!(err("MultiPoint", "[]"), "Unsupported geometry type: MultiPoint");
}
