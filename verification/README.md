# fauxrrt

Verified core of a desktop trajectory viewer: it reads columnar trajectory
files and KML boat reports, keeps a list of recent missions, and drives a
local Python running RocketPy. The library under `src/` is written in Verus:
every function there carries a contract, and Verus proves all of them but
those of the few wrappers around standard-library calls (path operations,
lossy UTF-8 decoding, pushing a character onto a string), which are trusted.

## Layout

- `src/text.rs`, `src/number.rs` — characters, trimming, splitting, lines,
  decimal numerals, and the grammar of floating-point literals.
- `src/schema.rs` — comment lines, delimiters, header rows, column names,
  the preview of a delimited file, and schema detection.
- `src/parse.rs` — decoding file bytes, choosing the data rows of a file.
- `src/datetime.rs` — the fields of calendar timestamps, integer fields,
  and day numbers of calendar dates.
- `src/kml.rs` — tags, attributes, entities and the fields of KML placemarks.
- `src/pick.rs`, `src/boats.rs` — which picked files and folder entries are
  loaded, in which order.
- `src/mission.rs` — recent missions, mission names, file names, and the
  state of the open mission.
- `src/store.rs` — display budgets, the names of new tracks, and where
  loaded files are assigned.
- `src/registry.rs` — objects, failure modes and tracks, and the links
  between them that every operation keeps.
- `src/restore.rs` — reopening a mission: its objects, failure modes and
  loaded tracks go back into an emptied registry, in order.
- `src/rocketpy.rs` — the search for a working Python and the reading of
  its replies.
- `src/wind.rs`, `src/risk.rs` — wind-archive requests and the checks on
  their replies; risk objects and what keeps one from being valid.
- `src/simulate.rs` — the checks a simulation request must pass.
- `src/paths.rs` — the path operations of the standard library that the
  contracts name.
- `tests/` — tests of the library on concrete values.
- `app/` — file, directory and process I/O, floating-point work, and the
  serialised forms of the library's types.
