//! Counts outstanding asynchronous work so that a scripted session can tell
//! when the map has settled.

use vstd::prelude::*;

verus! {

/// Outstanding tile fetches and image decodes.
#[derive(Debug, Default)]
pub struct IdleTracker {
    pending_tile_fetches: usize,
    pending_image_decodes: usize,
}

impl IdleTracker {
    /// Tile fetches that were started and have not finished.
    pub closed spec fn tile_fetches(&self) -> nat {
        self.pending_tile_fetches as nat
    }

    /// Image decodes that were started and have not finished.
    pub closed spec fn image_decodes(&self) -> nat {
        self.pending_image_decodes as nat
    }

    /// A tracker with nothing outstanding.
    pub fn new() -> (t: Self)
        ensures
            t.tile_fetches() == 0,
            t.image_decodes() == 0,
    {
        IdleTracker { pending_tile_fetches: 0, pending_image_decodes: 0 }
    }

    pub fn tile_fetch_started(&mut self)
        requires
            old(self).tile_fetches() < usize::MAX,
        ensures
            final(self).tile_fetches() == old(self).tile_fetches() + 1,
            final(self).image_decodes() == old(self).image_decodes(),
    {
        self.pending_tile_fetches = self.pending_tile_fetches + 1;
    }

    pub fn tile_fetch_finished(&mut self)
        requires
            old(self).tile_fetches() > 0,
        ensures
            final(self).tile_fetches() == old(self).tile_fetches() - 1,
            final(self).image_decodes() == old(self).image_decodes(),
    {
        self.pending_tile_fetches = self.pending_tile_fetches - 1;
    }

    pub fn image_decode_started(&mut self)
        requires
            old(self).image_decodes() < usize::MAX,
        ensures
            final(self).image_decodes() == old(self).image_decodes() + 1,
            final(self).tile_fetches() == old(self).tile_fetches(),
    {
        self.pending_image_decodes = self.pending_image_decodes + 1;
    }

    pub fn image_decode_finished(&mut self)
        requires
            old(self).image_decodes() > 0,
        ensures
            final(self).image_decodes() == old(self).image_decodes() - 1,
            final(self).tile_fetches() == old(self).tile_fetches(),
    {
        self.pending_image_decodes = self.pending_image_decodes - 1;
    }

    /// Idle when neither counter has outstanding work.
    pub fn is_idle(&self) -> (r: bool)
        ensures
            r == (self.tile_fetches() == 0 && self.image_decodes() == 0),
    {
        self.pending_tile_fetches == 0 && self.pending_image_decodes == 0
    }
}

} // verus!
