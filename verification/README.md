# space

A workspace set manager for Sway, written in Verus: the decisions are a library
whose behaviour is stated in contracts and proved; the program around it talks
to sway, the state files and the user.

## Concepts

**Workspaces** are named `<key>(<set>)`, e.g. `Q(main)` or `1(project)`.
Membership is read from the end: `foo(bar)(main)` belongs to `main`.

**Sets** are named contexts. Each monitor shows its own set, and a set is shown
on at most one monitor. Picking a set that another monitor shows swaps the two
monitors' sets; picking any other set freezes the monitor's old set and thaws
the new one. A set reopens where it was left, at first at `A(<set>)`. A monitor
seen for the first time gets the first known set that no other monitor shows.

**Monitors** are known by make, model and serial number, so a monitor keeps its
set on another connector.

**Freezing** a set stores its windows' tree and moves them to the parking
workspace `_`; thawing moves them back. **Pinned** windows belong to a key
rather than to a set and are carried along when the set changes.

## Layout

- `src/` is the library. A session (`session.rs`) carries out one command
  (`command.rs`) a request at a time; it is rerun with every reply, and proved
  to go on from where it stopped (`resume.rs`).
- What holds of every run is proved in `upkeep.rs` (what is stored stays in
  order, and no window is parked that is not stored), `parking.rs` (what
  freezing, thawing and delivering do, step by step; nothing stored is removed
  too soon), `carrying.rs` (changing sets) and `queries.rs`.
- `app/` is the program: the command line, sway's socket, files, wofi and
  notifications.
- `tests/` runs the library, whole sessions included, against a sway in memory.

## State files

Stored in `~/.local/state/space/`:

| File | Purpose |
|------|---------|
| `monitor_sets.json` | Set shown on each monitor |
| `space_sets` | Known sets, most recently used first |
| `last_workspace.json` | Where each set was left |
| `pins.json` | Pinned windows |
| `ice/<name>.json` | Frozen sets |
| `pending_move_target` | Target set of the deliver mode |
