# osm-gpui core

The logic of a small OpenStreetMap editor, written in Verus: every function
in `src/` carries a contract that Verus proves, except the few thin wrappers
around outside crates (JSON, hashing, encoding, randomness, the clock),
whose contracts state what those crates document and are assumed.

## Layout

- `src/osm.rs`: nodes, ways and datasets; coordinates are held as the bit
  patterns of their `f64` values. A coordinate counts as unchanged when its
  bits are the same or its value is equal (+0 and -0), so an untouched NaN
  is no change.
- `src/layers/`: the layer list (`mod.rs`), the diff of a layer against its
  last synced snapshot (`diff.rs`), and the editable OSM layer with its way
  indexes, id allocation, edits, deletion records and upload reconciliation
  (`osm_layer.rs`).
- `src/undo.rs`: undo records and replaying them on the layers.
- `src/map_keys.rs`: what a key pressed over the map does to the editing
  mode.
- `src/editing.rs`: Add-mode drawing, buildings, extrusion, segment
  insertion and deleting the selection, each with the undo record it leaves.
- `src/moving.rs`: which nodes a drag of the selection moves, committing
  the drag, and what undoing it gives back.
- `src/tagging.rs`: reading the selected features' tags and deleting a key
  from all of them as one edit.
- `src/viewer.rs`: the layer panel (moving, deleting, hiding, choosing the
  layer being edited), keeping the selection to what is drawn, adding
  datasets as layers, and collecting and settling uploads.
- `src/auth.rs`: OAuth login (PKCE), token storage model and refresh
  decisions; `src/http.rs`: requests and the retry policy.
- `src/fields.rs`, `src/imagery.rs`, `src/interaction.rs`,
  `src/keybindings.rs`, `src/custom_imagery_store.rs`, `src/settings.rs`,
  `src/idle_tracker.rs`, `src/background.rs`, `src/capture.rs`,
  `src/data.rs`: preset fields, imagery metadata, attribution handling,
  shortcuts, stored settings, GeoJSON geometry and smaller pieces (among them reading and
  editing `;`-separated multi-select tag values).
- `src/json.rs`, `src/text.rs`: JSON navigation over `serde_json` values and
  verified string helpers.
- `app/`: the command-line program around the library (network, files,
  keyring, browser).
- `tests/`: tests of the library's behaviour on concrete values.

The laws the library keeps (for example that restoring a deleted feature
gives back the data, that undoing an edit gives back what was there, that a
freshly loaded layer has nothing to upload) are public proof functions next
to the code they speak of, named `law_*`.
