# excavation

Planning logic for an interactive excavation game on a 200 x 200 board of
rock cells with unknown hardness: every house must be connected to a water
source through broken cells, and each blow costs its power plus a fixed
cost.  The library is written in Verus and every function in it carries a
contract that Verus proves, except one wrapper around the standard
library's `slice::swap`, whose contract is trusted.

Layout:

- `src/def.rs`: cells, the board tables (`Vec2d`), the instance and the
  excavation state.
- `src/grid.rs`: the cell grid with estimated weights, the cheapest-walk
  search to the nearest source, the routes water currently takes.
- `src/solver.rs`: route planning on the grid (initial plan, hill climbing
  with rollback), hardness bookkeeping, and the cells to break at the end.
- `src/solver2.rs`: the point graph (Kruskal-linked neighbourhoods), its
  shortest-path search, and the edge-selection state.
- `src/legacy.rs`: the straight-walk plan from the nearest source.
- `src/interactor.rs`, `src/io.rs`: recording a blow and the judge's answer,
  and parsing the judge's input lines.
- `src/util.rs`, `src/util/rnd.rs`: small helpers, union-find, sorting and
  the xorshift generator.
- `app/`: the program that talks to the judge (standard input and output),
  the floating-point hardness estimates, and the game loops.
- `tests/`: tests of the library on concrete instances.
