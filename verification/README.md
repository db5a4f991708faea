# tank_rounds

The rules of a round of a top-down tank game, verified with Verus: who is hit
and what that does, how fire spreads, whom the enemies fight and who gives way
to whom, what is collected, who travels through the portals and how a round
ends.

The library decides and the host measures. Floating point never enters `src/`:
a measurement is a `Scalar`, the bit pattern of a single-precision number with
the order the numbers have. Where a rule needs arithmetic, the host hands in
the readings, or a function that takes them.

- `src/` is the library. `game.rs` holds a round and its frame; `layout.rs`
  sets a round up, with `chassis`, `kit` and `placement`; `field.rs` is the
  entity store (a `hecs::World`); `frame.rs` what one frame records. The other
  modules are a phase or a rule each: `volley`, `shots`, `streams`, `burning`,
  `ticking`, `seeking`, `ramming`, `shoving`, `detonation`, `chain`,
  `collecting`, `supply`, `frog_phase` and `travel` run over the whole field,
  on top of the single decisions in `combat`, `blasts`, `flame`, `props`,
  `hits`, `terrain`, `missiles`, `pickups`, `frogs`, `driving` and `portals`.
  The pack's turn is `turn`, on top of `perception`, `rings`, `thinking`,
  `enemies`, `engage`, `command` and `routes`.
- `tests/` exercises the library with real stores and generators.
- `app/` is the host's side: `driver` runs a round frame by frame, phase by
  phase, over an `Engine` that knows the map and the minds; the rest is the
  geometry, the solver's bodies and the records as they go over the wire.

Nothing is promised of a random draw but where it may fall, and of the entity
store's own order nothing at all: whatever a contract says of a walk over the
field holds for every order.
