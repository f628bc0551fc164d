# Waiting zones

From a [SUMO](https://sumo.dlr.de/) road network this project derives waiting
zones: the stretches of road, or of pavement, where traffic waits for a signal.
Each zone is an E3 detector, and each can be drawn as a polygon as well.

- `src/` is the library. Every function in it carries a contract, and Verus
  proves the body against it.
- `tests/` runs the library, with the outside crates that it is used with.
- `app/` is the command line tool: it reads and writes files, computes what
  takes floating point geometry, and leaves every decision to the library.

## The library

Zones are found in `zone_generator`, from the links between lanes
(`connectivity`), the movement of each lane (`movement`, `grouping`), forks that
come together again (`siblings`), and the lanes that lead up to a stop line
(`approach`, `boundaries`).

What is drawn for a zone is planned in `drawing`, from the chains of lanes that
lead up to it (`chains`, `successors`). Zones that overlap are parted in
`resolution` and `cutting`, and what is left of each is cleaned in `finishing`.
These three are machines: each says what is to be measured or cut next, and is
told what came of it. `features` and `stop_lines` say what is published.

Lengths and coordinates are binary floating point numbers held by their bits
(`double`). Their arithmetic is that of IEEE 754, written and proved in
`double`, `rounding`, `product` and `hypotenuse`.

What holds of all inputs is stated as public proof functions, most of them in
the modules whose names end in `laws`.

Three functions from outside the project are trusted to do what their contracts
say: `parse_projection` in `projection`, `permitted_on` in `modes`, and `quote`
in `quoting`.
