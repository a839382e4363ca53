//! Editing and networking logic of the osm-gpui map editor.

use vstd::prelude::*;

pub mod auth;
pub mod background;
pub mod capture;
pub mod custom_imagery_store;
pub mod data;
pub mod editing;
pub mod fields;
pub mod http;
pub mod idle_tracker;
pub mod imagery;
pub mod interaction;
pub mod json;
pub mod keybindings;
pub mod layers;
pub mod map_keys;
pub mod moving;
pub mod osm;
pub mod settings;
pub mod tagging;
pub mod text;
pub mod undo;
pub mod viewer;

verus! {

/// The package version.
pub const VERSION: &'static str = "0.1.0";

/// The User-Agent sent on every outgoing HTTP request, so all services see
/// one consistent identifier for this application.
pub const USER_AGENT: &'static str = "osm-gpui/0.1.0";

/// The statuses worth retrying: 429 (rate limited), 509 (bandwidth limit
/// exceeded) and every 5xx.
pub open spec fn retryable_status(status: u16) -> bool {
    status == 429 || status == 509 || (500 <= status < 600)
}

/// Whether an HTTP status from an idempotent GET is worth retrying:
/// 429 (rate limited), 509 (bandwidth limit exceeded) and every 5xx.
pub fn is_retryable_status(status: u16) -> (r: bool)
    ensures
        r == (status == 429 || status == 509 || (500 <= status < 600)),
        r == retryable_status(status),
{
    status == 429 || status == 509 || (500 <= status && status < 600)
}

} // verus!
