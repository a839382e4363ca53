//! Statistics about background tile loading.

use vstd::prelude::*;

use crate::text::{append_str, decimal, push_decimal};

verus! {

/// Statistics about tile loading and caching.
#[derive(Debug, Clone)]
pub struct TileStats {
    pub loaded_tiles: usize,
    pub loading_tiles: usize,
    pub cache_size: usize,
    pub cache_capacity: usize,
    pub active_tasks: usize,
}

/// The one-line summary of tile statistics.
pub open spec fn stats_line(s: TileStats) -> Seq<char> {
    "Tiles: "@ + decimal(s.cache_size as nat) + "/"@ + decimal(s.cache_capacity as nat) + " loaded, "@
        + decimal(s.loading_tiles as nat) + " loading, "@ + decimal(s.active_tasks as nat) + " tasks"@
}

impl TileStats {
    /// A one-line summary: cache fill, tiles in flight and running tasks.
    pub fn format(&self) -> (r: String)
        ensures
            r@ == stats_line(*self),
    {
        let mut out = String::new();
        append_str(&mut out, "Tiles: ");
        push_decimal(&mut out, self.cache_size as u64);
        append_str(&mut out, "/");
        push_decimal(&mut out, self.cache_capacity as u64);
        append_str(&mut out, " loaded, ");
        push_decimal(&mut out, self.loading_tiles as u64);
        append_str(&mut out, " loading, ");
        push_decimal(&mut out, self.active_tasks as u64);
        append_str(&mut out, " tasks");
        out
    }
}

} // verus!
