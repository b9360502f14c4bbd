# red_republic_sim

The decision and arithmetic core of the Red Republic simulation, written in
Verus: every function in `src/` carries a contract and is proved against it.

- `src/` — the library. Quantities are exact integers: metres, whole tonnes,
  kilograms of fuel, speeds in metres an hour, durations in milliseconds,
  fractions and rates in thousandths, money in hundredths of a bloc's unit,
  working days in whole hours. Where the simulation needs to know what the
  terrain is somewhere, it takes the reading as a value (a surface sample, a
  fairway reading, whether the ground takes a footprint) rather than a map.
- `tests/` — scenarios on concrete values, run against the compiled library.
- `app/` — ordinary Rust around it: the floating-point climate model and the
  conversions a panel shows, the day's weather handed to the ground model, and
  save-file shapes with serde derives.
