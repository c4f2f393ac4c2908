# application_priority_setter

The logic of a Linux desktop tool that lists the current user's running
applications and changes their CPU priority (nice value), written in Verus
and verified against its contracts.

## Layout

- `src/` — the verified library.
  - `text.rs`: character-level string operations with specifications that
    follow `std` (`lines`, `split_whitespace`, `trim`, `parse`, path joining),
    and the few calls into `std` whose results are only named.
  - `rules.rs`: saved priorities per application (`desktop:<id>` or
    `exe:<path>`), kept as an ordered map with a type invariant; cleaning,
    loading (through `serde_json`) and the file to save.
  - `desktop.rs`: parsing `.desktop` files and matching a running program
    to its entry.
  - `process.rs`: parsing `/proc/<pid>/{stat,status,cgroup}`, process-tree
    roots, and grouping processes into applications.
  - `priority.rs`: the outcome of each priority change and their tally.
  - `autostart.rs`: the XDG autostart entry: where it lives, when it counts
    as enabled, and the text written to enable it.
  - `controller.rs`: which saved priorities a refresh re-applies, and the
    status lines shown to the user.
- `app/` — the unverified shell around the library: reading `/proc`,
  desktop files and the rules file, calling `setpriority`, and the Qt
  controller object.
- `tests/` — tests of the library on concrete values.

Each module states its laws as public proof functions named `law_*`.
