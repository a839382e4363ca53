//! Editor Layer Index imagery sources: the non-geometric properties of a
//! source (which sources are usable, their names, zoom range and required
//! attribution).

use vstd::prelude::*;

use serde_json::Value;

use crate::json::{
    array_len, array_len_at, get_index, get_key, is_object, json_document, json_tree, member,
    member_bool, member_str, member_u64, node_at, parse_json, str_at, bool_at, u64_at, subtree,
    JsonNode, JsonStep, JsonTree,
};
use crate::text::{str_eq, trim, trim_ws};

verus! {

/// Attribution text (and optional link) to be displayed alongside tiles
/// from an imagery source.
#[derive(Debug, Clone)]
pub struct AttributionInfo {
    pub text: String,
    pub url: Option<String>,
}

/// The view of an optional string.
pub open spec fn ov(o: Option<String>) -> Option<Seq<char>> {
    match o {
        Some(s) => Some(s@),
        None => None,
    }
}

impl View for AttributionInfo {
    type V = (Seq<char>, Option<Seq<char>>);

    open spec fn view(&self) -> (Seq<char>, Option<Seq<char>>) {
        (self.text@, ov(self.url))
    }
}

/// The attribution a JSON value gives: a non-blank string (trimmed), or an
/// object with a non-blank `text` string (trimmed) and an optional `url`
/// string. Anything else gives none.
pub open spec fn attribution_at(t: JsonTree) -> Option<(Seq<char>, Option<Seq<char>>)> {
    match str_at(t, Seq::empty()) {
        Some(s) => if trim_ws(s).len() == 0 {
            None
        } else {
            Some((trim_ws(s), None))
        },
        None => if node_at(t, Seq::empty()) == Some(JsonNode::Object) {
            match str_at(t, member("text"@)) {
                Some(s) => if trim_ws(s).len() == 0 {
                    None
                } else {
                    Some((trim_ws(s), str_at(t, member("url"@))))
                },
                None => None,
            }
        } else {
            None
        },
    }
}

/// Reads an attribution from its JSON value.
pub fn parse_attribution(value: &Value) -> (r: Option<AttributionInfo>)
    ensures
        match attribution_at(json_tree(value)) {
            Some(a) => r matches Some(x) && x@ == a,
            None => r is None,
        },
{
    match crate::json::as_str(value) {
        Some(s) => {
            let text = trim(s);
            if text.as_str().is_empty() {
                None
            } else {
                Some(AttributionInfo { text, url: None })
            }
        },
        None => {
            if !is_object(value) {
                return None;
            }
            let text = match member_str(value, "text") {
                Some(s) => trim(s.as_str()),
                None => return None,
            };
            if text.as_str().is_empty() {
                return None;
            }
            Some(AttributionInfo { text, url: member_str(value, "url") })
        },
    }
}

/// What an imagery source's `properties` say, apart from its coverage.
#[derive(Debug, Clone)]
pub struct ImageryProperties {
    pub id: String,
    pub name: String,
    pub url_template: String,
    pub min_zoom: Option<u32>,
    pub max_zoom: Option<u32>,
    pub best: bool,
    pub country_code: Option<String>,
    pub icon_url: Option<String>,
    pub attribution: Option<AttributionInfo>,
}

/// Abstract form of `ImageryProperties`.
pub struct ImageryPropertiesView {
    pub id: Seq<char>,
    pub name: Seq<char>,
    pub url_template: Seq<char>,
    pub min_zoom: Option<u32>,
    pub max_zoom: Option<u32>,
    pub best: bool,
    pub country_code: Option<Seq<char>>,
    pub icon_url: Option<Seq<char>>,
    pub attribution: Option<(Seq<char>, Option<Seq<char>>)>,
}

impl View for ImageryProperties {
    type V = ImageryPropertiesView;

    open spec fn view(&self) -> ImageryPropertiesView {
        ImageryPropertiesView {
            id: self.id@,
            name: self.name@,
            url_template: self.url_template@,
            min_zoom: self.min_zoom,
            max_zoom: self.max_zoom,
            best: self.best,
            country_code: ov(self.country_code),
            icon_url: ov(self.icon_url),
            attribution: match self.attribution {
                Some(a) => Some(a@),
                None => None,
            },
        }
    }
}

/// A zoom level as `u32` (the JSON integer truncated to 32 bits).
pub open spec fn zoom(n: Option<u64>) -> Option<u32> {
    match n {
        Some(z) => Some(z as u32),
        None => None,
    }
}

/// The usable source a `properties` object describes: only `tms` sources
/// that are not overlays and have a `url`. The name defaults to
/// "Unnamed imagery" and the id to the name.
pub open spec fn properties_in(p: JsonTree) -> Option<ImageryPropertiesView> {
    if str_at(p, member("type"@)) != Some("tms"@) {
        None
    } else if bool_at(p, member("overlay"@)) == Some(true) {
        None
    } else {
        match str_at(p, member("url"@)) {
            None => None,
            Some(url) => {
                let name = match str_at(p, member("name"@)) {
                    Some(n) => n,
                    None => "Unnamed imagery"@,
                };
                Some(ImageryPropertiesView {
                    id: match str_at(p, member("id"@)) {
                        Some(i) => i,
                        None => name,
                    },
                    name,
                    url_template: url,
                    min_zoom: zoom(u64_at(p, member("min_zoom"@))),
                    max_zoom: zoom(u64_at(p, member("max_zoom"@))),
                    best: bool_at(p, member("best"@)) == Some(true),
                    country_code: str_at(p, member("country_code"@)),
                    icon_url: str_at(p, member("icon"@)),
                    attribution: if p.contains_key(member("attribution"@)) {
                        attribution_at(subtree(p, JsonStep::Key("attribution"@)))
                    } else {
                        None
                    },
                })
            },
        }
    }
}

/// The usable source a GeoJSON feature describes, from its `properties`.
pub open spec fn feature_properties(t: JsonTree) -> Option<ImageryPropertiesView> {
    if t.contains_key(member("properties"@)) {
        properties_in(subtree(t, JsonStep::Key("properties"@)))
    } else {
        None
    }
}

/// Reads the properties of an imagery feature, or `None` when the feature
/// is not a usable source (not `tms`, an overlay, or without a URL).
pub fn parse_feature_properties(feature: &Value) -> (r: Option<ImageryProperties>)
    ensures
        match feature_properties(json_tree(feature)) {
            Some(p) => r matches Some(x) && x@ == p,
            None => r is None,
        },
{
    let props = match get_key(feature, "properties") {
        Some(p) => p,
        None => return None,
    };
    let ghost p = json_tree(props);
    let typ = member_str(props, "type");
    let is_tms = match &typ {
        Some(t) => str_eq(t.as_str(), "tms"),
        None => false,
    };
    if !is_tms {
        return None;
    }
    if member_bool(props, "overlay") == Some(true) {
        return None;
    }
    let url_template = match member_str(props, "url") {
        Some(u) => u,
        None => return None,
    };
    let name = match member_str(props, "name") {
        Some(n) => n,
        None => "Unnamed imagery".to_owned(),
    };
    let id = match member_str(props, "id") {
        Some(i) => i,
        None => name.clone(),
    };
    let min_zoom = match member_u64(props, "min_zoom") {
        Some(z) => Some(z as u32),
        None => None,
    };
    let max_zoom = match member_u64(props, "max_zoom") {
        Some(z) => Some(z as u32),
        None => None,
    };
    let best = member_bool(props, "best") == Some(true);
    let country_code = member_str(props, "country_code");
    let icon_url = member_str(props, "icon");
    proof {
        crate::json::lemma_member(p, "attribution"@);
    }
    let attribution = match get_key(props, "attribution") {
        Some(a) => parse_attribution(a),
        None => None,
    };
    Some(ImageryProperties {
        id,
        name,
        url_template,
        min_zoom,
        max_zoom,
        best,
        country_code,
        icon_url,
        attribution,
    })
}


/// The usable sources among the first `n` elements of the array `fs`, in
/// order, each with its index.
pub open spec fn usable_prefix(fs: JsonTree, n: nat) -> Seq<(int, ImageryPropertiesView)>
    decreases n,
{
    if n == 0 {
        Seq::empty()
    } else {
        let rest = usable_prefix(fs, (n - 1) as nat);
        match feature_properties(subtree(fs, JsonStep::Index((n - 1) as nat))) {
            Some(p) => rest.push(((n - 1) as int, p)),
            None => rest,
        }
    }
}

/// The usable sources of an index document: for each element `i` of its
/// `features` array, in order, `(i, properties)` when the feature is a
/// usable source. No document, or no `features` array, gives none.
pub open spec fn usable_features(doc: Option<JsonTree>) -> Seq<(int, ImageryPropertiesView)> {
    match doc {
        None => Seq::empty(),
        Some(t) => {
            let fs = subtree(t, JsonStep::Key("features"@));
            match array_len_at(fs, Seq::empty()) {
                Some(n) => usable_prefix(fs, n),
                None => Seq::empty(),
            }
        },
    }
}

/// The view of a list of indexed sources.
pub open spec fn sources_view(v: Seq<(usize, ImageryProperties)>) -> Seq<(int, ImageryPropertiesView)> {
    v.map_values(|e: (usize, ImageryProperties)| (e.0 as int, e.1@))
}

/// The usable sources of an index body (GeoJSON text), each with the index
/// of its feature in the `features` array, in order. A body that is not
/// JSON, or has no `features` array, gives none.
pub fn index_sources(body: &str) -> (r: Vec<(usize, ImageryProperties)>)
    ensures
        sources_view(r@) == usable_features(json_document(body@)),
{
    let mut out: Vec<(usize, ImageryProperties)> = Vec::new();
    let root = match parse_json(body) {
        Ok(v) => v,
        Err(_) => {
            assert(sources_view(out@) =~= Seq::<(int, ImageryPropertiesView)>::empty());
            return out;
        },
    };
    let features = match get_key(&root, "features") {
        Some(f) => f,
        None => {
            proof {
                let fs = subtree(json_tree(&root), JsonStep::Key("features"@));
                assert(!fs.contains_key(Seq::<JsonStep>::empty()));
                assert(sources_view(out@) =~= Seq::<(int, ImageryPropertiesView)>::empty());
            }
            return out;
        },
    };
    let n = match array_len(features) {
        Some(n) => n,
        None => {
            assert(sources_view(out@) =~= Seq::<(int, ImageryPropertiesView)>::empty());
            return out;
        },
    };
    let ghost fs = json_tree(features);
    assert(sources_view(out@) =~= usable_prefix(fs, 0));
    let mut i: usize = 0;
    while i < n
        invariant
            i <= n,
            fs == json_tree(features),
            array_len_at(fs, Seq::empty()) == Some(n as nat),
            sources_view(out@) == usable_prefix(fs, i as nat),
        decreases n - i,
    {
        match get_index(features, i) {
            Some(f) => {
                let ghost before = out@;
                match parse_feature_properties(f) {
                    Some(p) => {
                        out.push((i, p));
                        assert(sources_view(out@) =~= sources_view(before).push((i as int, p@)));
                    },
                    None => {},
                }
            },
            None => {
                assert(false);
            },
        }
        i = i + 1;
    }
    out
}

} // verus!
