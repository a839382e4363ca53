//! Map data loading: the loader's configuration, the OSM way records it
//! produces, and GeoJSON geometries read from their coordinates.

use vstd::prelude::*;

use std::path::PathBuf;

use serde_json::Value;

use crate::json::{array_len, array_len_at, as_f64_bits, f64_bits_of, get_index, json_tree, subtree, JsonStep, JsonTree};
use crate::osm::Coord;
use crate::text::{append_str, str_eq};

verus! {

#[verifier::external_type_specification]
#[verifier::external_body]
pub struct ExPathBuf(std::path::PathBuf);

/// An OSM way: its id, the ids of its nodes in order, and its tags.
#[derive(Debug, Clone)]
pub struct OsmWay {
    pub id: i64,
    pub nodes: Vec<i64>,
    pub tags: Vec<(String, String)>,
}

/// Loader for map data, optionally caching downloads in a directory.
pub struct MapDataLoader {
    pub cache_dir: Option<PathBuf>,
}

impl MapDataLoader {
    /// A loader without a cache directory.
    pub fn new() -> (l: Self)
        ensures
            l.cache_dir is None,
    {
        MapDataLoader { cache_dir: None }
    }

    /// This loader, caching in `cache_dir`.
    pub fn with_cache_dir(self, cache_dir: PathBuf) -> (l: Self)
        ensures
            l.cache_dir == Some(cache_dir),
    {
        MapDataLoader { cache_dir: Some(cache_dir) }
    }
}

impl Default for MapDataLoader {
    fn default() -> (l: Self)
        ensures
            l.cache_dir is None,
    {
        MapDataLoader::new()
    }
}


/// The geometry of a GeoJSON feature; each point is (latitude, longitude).
#[derive(Debug, Clone)]
pub enum FeatureGeometry {
    Point { lat: Coord, lon: Coord },
    LineString { points: Vec<(Coord, Coord)> },
    Polygon { exterior: Vec<(Coord, Coord)>, holes: Vec<Vec<(Coord, Coord)>> },
}

/// Abstract form of `FeatureGeometry`.
pub enum GeometryView {
    Point(Coord, Coord),
    LineString(Seq<(Coord, Coord)>),
    Polygon(Seq<(Coord, Coord)>, Seq<Seq<(Coord, Coord)>>),
}

/// The views of a list of rings.
pub open spec fn rings_view(v: Seq<Vec<(Coord, Coord)>>) -> Seq<Seq<(Coord, Coord)>> {
    v.map_values(|r: Vec<(Coord, Coord)>| r@)
}

impl View for FeatureGeometry {
    type V = GeometryView;

    open spec fn view(&self) -> GeometryView {
        match self {
            FeatureGeometry::Point { lat, lon } => GeometryView::Point(*lat, *lon),
            FeatureGeometry::LineString { points } => GeometryView::LineString(points@),
            FeatureGeometry::Polygon { exterior, holes } => GeometryView::Polygon(exterior@, rings_view(holes@)),
        }
    }
}

/// A GeoJSON position `[lon, lat, ..]` as (lat, lon): `None` when it has
/// fewer than two members; a position that is not an array is refused
/// with `not_array`, a non-number longitude or latitude with its own
/// message.
pub open spec fn position_of(p: JsonTree, not_array: Seq<char>) -> Result<Option<(Coord, Coord)>, Seq<char>> {
    match array_len_at(p, Seq::empty()) {
        None => Err(not_array),
        Some(n) => if n < 2 {
            Ok(None)
        } else {
            match f64_bits_of(subtree(p, JsonStep::Index(0))) {
                None => Err("Invalid longitude"@),
                Some(lon) => match f64_bits_of(subtree(p, JsonStep::Index(1))) {
                    None => Err("Invalid latitude"@),
                    Some(lat) => Ok(Some((Coord(lat), Coord(lon)))),
                },
            }
        },
    }
}

/// The points of the first `n` positions of the array `a`, in order
/// (positions with fewer than two members skipped), or the first error.
pub open spec fn positions_of(a: JsonTree, n: nat, not_array: Seq<char>) -> Result<Seq<(Coord, Coord)>, Seq<char>>
    decreases n,
{
    if n == 0 {
        Ok(Seq::empty())
    } else {
        match positions_of(a, (n - 1) as nat, not_array) {
            Err(e) => Err(e),
            Ok(ps) => match position_of(subtree(a, JsonStep::Index((n - 1) as nat)), not_array) {
                Err(e) => Err(e),
                Ok(None) => Ok(ps),
                Ok(Some(pt)) => Ok(ps.push(pt)),
            },
        }
    }
}

/// The points of a ring: `not_ring` when it is not an array.
pub open spec fn ring_of(a: JsonTree, not_ring: Seq<char>, not_array: Seq<char>) -> Result<Seq<(Coord, Coord)>, Seq<char>> {
    match array_len_at(a, Seq::empty()) {
        None => Err(not_ring),
        Some(n) => positions_of(a, n, not_array),
    }
}

/// The holes of a polygon: rings 1 up to (not including) `k` of `rings`,
/// in order, or the first error.
pub open spec fn holes_of(rings: JsonTree, k: nat) -> Result<Seq<Seq<(Coord, Coord)>>, Seq<char>>
    decreases k,
{
    if k <= 1 {
        Ok(Seq::empty())
    } else {
        match holes_of(rings, (k - 1) as nat) {
            Err(e) => Err(e),
            Ok(hs) => match ring_of(
                subtree(rings, JsonStep::Index((k - 1) as nat)),
                "Invalid hole ring"@,
                "Invalid coordinate in hole"@,
            ) {
                Err(e) => Err(e),
                Ok(h) => Ok(hs.push(h)),
            },
        }
    }
}

/// The geometry a GeoJSON `type` and `coordinates` describe, or the error
/// message. A Point needs two numbers; a LineString is a list of
/// positions; a Polygon a non-empty list of rings, the first the exterior
/// and the rest holes. Positions with fewer than two members are skipped;
/// anything not of the expected shape is refused, at the first place met.
pub open spec fn geometry_of(kind: Seq<char>, c: JsonTree) -> Result<GeometryView, Seq<char>> {
    if kind == "Point"@ {
        match array_len_at(c, Seq::empty()) {
            None => Err("Invalid Point coordinates"@),
            Some(n) => if n < 2 {
                Err("Point must have at least 2 coordinates"@)
            } else {
                match position_of(c, "Invalid Point coordinates"@) {
                    Ok(Some(pt)) => Ok(GeometryView::Point(pt.0, pt.1)),
                    Ok(None) => Err("Invalid Point coordinates"@),
                    Err(e) => Err(e),
                }
            },
        }
    } else if kind == "LineString"@ {
        match ring_of(c, "Invalid LineString coordinates"@, "Invalid coordinate in LineString"@) {
            Ok(ps) => Ok(GeometryView::LineString(ps)),
            Err(e) => Err(e),
        }
    } else if kind == "Polygon"@ {
        match array_len_at(c, Seq::empty()) {
            None => Err("Invalid Polygon coordinates"@),
            Some(n) => if n == 0 {
                Err("Polygon must have at least one ring"@)
            } else {
                match ring_of(subtree(c, JsonStep::Index(0)), "Invalid exterior ring"@, "Invalid coordinate in Polygon"@) {
                    Err(e) => Err(e),
                    Ok(ext) => match holes_of(c, n) {
                        Err(e) => Err(e),
                        Ok(hs) => Ok(GeometryView::Polygon(ext, hs)),
                    },
                }
            },
        }
    } else {
        Err("Unsupported geometry type: "@ + kind)
    }
}

/// An error among the first positions stays the error of longer prefixes.
proof fn lemma_positions_error_sticks(a: JsonTree, i: nat, j: nat, not_array: Seq<char>)
    requires
        i <= j,
        positions_of(a, i, not_array) is Err,
    ensures
        positions_of(a, j, not_array) == positions_of(a, i, not_array),
    decreases j - i,
{
    if i < j {
        lemma_positions_error_sticks(a, i, (j - 1) as nat, not_array);
    }
}

/// An error among the first holes stays the error of longer prefixes.
proof fn lemma_holes_error_sticks(rings: JsonTree, i: nat, j: nat)
    requires
        1 <= i <= j,
        holes_of(rings, i) is Err,
    ensures
        holes_of(rings, j) == holes_of(rings, i),
    decreases j - i,
{
    if i < j {
        lemma_holes_error_sticks(rings, i, (j - 1) as nat);
    }
}

/// Reads one position (see `position_of`).
fn read_position(p: &Value, not_array: &str) -> (r: Result<Option<(Coord, Coord)>, String>)
    ensures
        match position_of(json_tree(p), not_array@) {
            Ok(o) => r == Ok::<Option<(Coord, Coord)>, String>(o),
            Err(m) => r matches Err(e) && e@ == m,
        },
{
    let n = match array_len(p) {
        Some(n) => n,
        None => return Err(not_array.to_owned()),
    };
    if n < 2 {
        return Ok(None);
    }
    let lon = match get_index(p, 0) {
        Some(v) => match as_f64_bits(v) {
            Some(b) => b,
            None => return Err("Invalid longitude".to_owned()),
        },
        None => return Err("Invalid longitude".to_owned()),
    };
    let lat = match get_index(p, 1) {
        Some(v) => match as_f64_bits(v) {
            Some(b) => b,
            None => return Err("Invalid latitude".to_owned()),
        },
        None => return Err("Invalid latitude".to_owned()),
    };
    Ok(Some((Coord(lat), Coord(lon))))
}

/// Reads a ring of positions (see `ring_of`).
fn read_ring(a: &Value, not_ring: &str, not_array: &str) -> (r: Result<Vec<(Coord, Coord)>, String>)
    ensures
        match ring_of(json_tree(a), not_ring@, not_array@) {
            Ok(ps) => r matches Ok(v) && v@ == ps,
            Err(m) => r matches Err(e) && e@ == m,
        },
{
    let n = match array_len(a) {
        Some(n) => n,
        None => return Err(not_ring.to_owned()),
    };
    let mut out: Vec<(Coord, Coord)> = Vec::new();
    let mut i: usize = 0;
    while i < n
        invariant
            i <= n,
            array_len_at(json_tree(a), Seq::empty()) == Some(n as nat),
            positions_of(json_tree(a), i as nat, not_array@) == Ok::<Seq<(Coord, Coord)>, Seq<char>>(out@),
        decreases n - i,
    {
        let p = match get_index(a, i) {
            Some(p) => p,
            None => {
                assert(false);
                return Err(not_ring.to_owned());
            },
        };
        match read_position(p, not_array) {
            Err(e) => {
                proof {
                    lemma_positions_error_sticks(json_tree(a), (i + 1) as nat, n as nat, not_array@);
                }
                return Err(e);
            },
            Ok(None) => {},
            Ok(Some(pt)) => {
                out.push(pt);
            },
        }
        i = i + 1;
    }
    Ok(out)
}

/// Converts a GeoJSON geometry, given by its `type` and `coordinates`, to
/// a feature geometry (see `geometry_of`).
pub fn convert_geometry(kind: &str, coordinates: &Value) -> (r: Result<FeatureGeometry, String>)
    ensures
        match geometry_of(kind@, json_tree(coordinates)) {
            Ok(g) => r matches Ok(x) && x@ == g,
            Err(m) => r matches Err(e) && e@ == m,
        },
{
    let ghost c = json_tree(coordinates);
    if str_eq(kind, "Point") {
        let n = match array_len(coordinates) {
            Some(n) => n,
            None => return Err("Invalid Point coordinates".to_owned()),
        };
        if n < 2 {
            return Err("Point must have at least 2 coordinates".to_owned());
        }
        match read_position(coordinates, "Invalid Point coordinates") {
            Ok(Some((lat, lon))) => Ok(FeatureGeometry::Point { lat, lon }),
            Ok(None) => Err("Invalid Point coordinates".to_owned()),
            Err(e) => Err(e),
        }
    } else if str_eq(kind, "LineString") {
        match read_ring(coordinates, "Invalid LineString coordinates", "Invalid coordinate in LineString") {
            Ok(points) => Ok(FeatureGeometry::LineString { points }),
            Err(e) => Err(e),
        }
    } else if str_eq(kind, "Polygon") {
        let n = match array_len(coordinates) {
            Some(n) => n,
            None => return Err("Invalid Polygon coordinates".to_owned()),
        };
        if n == 0 {
            return Err("Polygon must have at least one ring".to_owned());
        }
        let first = match get_index(coordinates, 0) {
            Some(f) => f,
            None => {
                assert(false);
                return Err("Invalid exterior ring".to_owned());
            },
        };
        let exterior = match read_ring(first, "Invalid exterior ring", "Invalid coordinate in Polygon") {
            Ok(e) => e,
            Err(e) => return Err(e),
        };
        let mut holes: Vec<Vec<(Coord, Coord)>> = Vec::new();
        let mut k: usize = 1;
        assert(rings_view(holes@) =~= Seq::<Seq<(Coord, Coord)>>::empty());
        while k < n
            invariant
                1 <= k <= n,
                c == json_tree(coordinates),
                array_len_at(c, Seq::empty()) == Some(n as nat),
                holes_of(c, k as nat) == Ok::<Seq<Seq<(Coord, Coord)>>, Seq<char>>(rings_view(holes@)),
                kind@ != "Point"@ && kind@ != "LineString"@ && kind@ == "Polygon"@,
                ring_of(subtree(c, JsonStep::Index(0)), "Invalid exterior ring"@, "Invalid coordinate in Polygon"@)
                    == Ok::<Seq<(Coord, Coord)>, Seq<char>>(exterior@),
            decreases n - k,
        {
            let ring = match get_index(coordinates, k) {
                Some(r) => r,
                None => {
                    assert(false);
                    return Err("Invalid hole ring".to_owned());
                },
            };
            match read_ring(ring, "Invalid hole ring", "Invalid coordinate in hole") {
                Ok(h) => {
                    let ghost before = holes@;
                    holes.push(h);
                    assert(rings_view(holes@) =~= rings_view(before).push(h@));
                },
                Err(e) => {
                    proof {
                        assert(json_tree(ring) == subtree(c, JsonStep::Index(k as nat)));
                        assert(((k + 1) - 1) as nat == k as nat);
                        assert(holes_of(c, (k + 1) as nat) == Err::<Seq<Seq<(Coord, Coord)>>, Seq<char>>(e@));
                        lemma_holes_error_sticks(c, (k + 1) as nat, n as nat);
                    }
                    return Err(e);
                },
            }
            k = k + 1;
        }
        Ok(FeatureGeometry::Polygon { exterior, holes })
    } else {
        let mut m = "Unsupported geometry type: ".to_owned();
        append_str(&mut m, kind);
        Err(m)
    }
}

} // verus!
