use osm_gpui::background::TileStats;
use osm_gpui::capture::{find_own_window_id, own_window_id, CaptureError};
use osm_gpui::custom_imagery_store::{append, snapshot, update_store, CustomImageryEntry};
use osm_gpui::data::{MapDataLoader, OsmWay};

fn sample() -> Vec<CustomImageryEntry> {
    vec![
        CustomImageryEntry {
            name: "Example".into(),
            url_template: "https://tile.example.com/{z}/{x}/{y}.png".into(),
            min_zoom: 0,
            max_zoom: 19,
        },
        CustomImageryEntry {
            name: "Other".into(),
            url_template: "https://other.example.com/{z}/{x}/{-y}.png".into(),
            min_zoom: 4,
            max_zoom: 18,
        },
    ]
}

#[test]
fn tile_stats_format() {
    let stats = TileStats { loaded_tiles: 3, loading_tiles: 2, cache_size: 10, cache_capacity: 256, active_tasks: 0 };
    assert_eq!(stats.format(), "Tiles: 10/256 loaded, 2 loading, 0 tasks");
}

#[test]
fn find_own_window_id_reports_window_not_found() {
    assert!(matches!(find_own_window_id(), Err(CaptureError::WindowNotFound)));
}

#[test]
fn custom_imagery_store_operations() {
    let mut store: Vec<CustomImageryEntry> = Vec::new();
    append(&mut store, sample().remove(0));
    assert_eq!(store.len(), 1);
    assert_eq!(store[0].name, "Example");
    update_store(&mut store, sample());
    let snap = snapshot(&store);
    assert_eq!(snap.len(), 2);
    assert_eq!(snap[1].url_template, "https://other.example.com/{z}/{x}/{-y}.png");
    assert_eq!(snap[1].min_zoom, 4);
    update_store(&mut store, Vec::new());
    assert!(snapshot(&store).is_empty());
}

#[test]
fn map_data_loader_cache_dir() {
    let loader = MapDataLoader::new();
    assert!(loader.cache_dir.is_none());
    let loader = loader.with_cache_dir(std::path::PathBuf::from("/tmp/cache"));
    assert_eq!(loader.cache_dir, Some(std::path::PathBuf::from("/tmp/cache")));
    let way = OsmWay { id: 1, nodes: vec![1, 2, 3, 1], tags: vec![("building".into(), "yes".into())] };
    assert_eq!(way.nodes.len(), 4);
}

#[test]
fn own_window_is_the_first_numbered_window_of_this_process() {
    let windows = vec![
        (Some(7), Some(100)),
        (Some(42), None),
        (None, Some(101)),
        (Some(42), Some(102)),
        (Some(42), Some(103)),
    ];
    assert!(matches!(own_window_id(&windows, 42), Ok(102)));
    assert!(matches!(own_window_id(&windows, 7), Ok(100)));
    assert!(matches!(own_window_id(&windows, 9), Err(CaptureError::WindowNotFound)));
    assert!(matches!(own_window_id(&Vec::new(), 42), Err(CaptureError::WindowNotFound)));
    assert!(matches!(own_window_id(&vec![(Some(1), Some(1i64 << 32 | 5))], 1), Ok(5)));
}
