# vissue

An issue tracker kept in Org files, as a verified library.

`src/` holds the tracker's logic with its contracts, proved by Verus: the Org
heading model and its drawer, property aliases, the inbox fold, state updates
and the claims they take and give up, claims, resolves and rejects,
the read-only reports (list, count, search, children, backlinks, roadmap,
stale work, blocker cycles, trees and graphs, the corpus check), satchel
selection and manifests, the control-socket frame, configuration and key
tables (over a TOML document held as plain values), the HUD's log lines and palette state, and the rofi menus.

`app/` is the thin program around it: environment and file lookups, the HUD
log file, satchel checks on disk, inbox folding, and JSON and TOML through
serde.

`tests/` runs the library on concrete values.
