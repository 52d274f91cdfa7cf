# cellular_automata

Elementary one-dimensional cellular automata, with the helpers of a small
local gallery server, written in Verus.

## Layout

- `src/` — the verified library.
  - `sim.rs`: rules, boundaries, initial rows and the row stepper, with the
    mathematical model (`next_row`, `evolve`, `grid`).
  - `automaton.rs`: run configuration, input checks, the simulation and
    its errors.
  - `json.rs`, `svg.rs`, `export.rs` + `page.rs`: the JSON, SVG and
    stand-alone HTML renderings.
  - `bits.rs`: packing cells eight to a byte for the viewers.
  - `ic.rs`: the decimal "initial condition" label of a row.
  - `gallery.rs`: the server's rules — safe file names, `Host` checks,
    request parsing and limits, session admission, viewer tiles.
  - `manifest.rs`: the tab-separated manifest of saved runs and the
    gallery index data.
  - `text.rs`, `decimal.rs`: character and number helpers.
- `tests/` — tests of the library.
- `app/` — the server program: HTTP routes, files, clock, and the
  floating-point parts of rendering (`RenderOptions`, fractional SVG
  borders).

Each public function states its result in `ensures` over spec functions;
the `lemma_*` proof functions state the laws that relate several of them
(for example that a manifest line reads back as the entry written, or
that a saved run keeps the manifest free of duplicates).
