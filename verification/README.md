# islefall

A library for a real-time strategy game about floating islands, its data
formats and its simulation rules, written in Verus: each function in `src/`
carries a contract that the verifier proves.

- `src/`: the library. Archive (`tarc`), shape (`shp`), fortress (`fort`) and
  type-file readers; islands, bridge pieces and the ground a world stands on
  (`island`, `pieces`, `world`); structure drops (`drop`); route search
  (`path`); scenario building (`scenario`, `blob`, `generate`); contact
  sheets; the multiplayer relay's decisions (`relay`).
- `tests/`: ordinary Rust tests against the compiled library.
- `app/`: the program around the library: file and network I/O, the
  command line, the floating-point parts of map making, and the serde copies
  of the library's types.
