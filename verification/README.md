# adsb-trip-journal

A restartable journal of trips for corporate aircraft, written in Rust and verified with Verus.

The journal reads a map of aircraft to tickers, asks OpenSky which flights it saw in twelve
two-hour slices of each UTC day, from yesterday back, keeps those of the mapped fleet, and writes
one trip per hop.

- `src/` is the library: the fleet slice, the airport index, the journal's tables, the collect and
  watch runs as machines that say what they need next, the readings of OpenSky and ADS-B Exchange
  responses, live and trace segmentation, and what is printed. Every function carries a contract;
  the `law_` functions state what holds across them.
- `app/` is the program around it: command line, HTTP, SQLite, files, JSON records and the
  floating-point geometry.
- `tests/` runs the library.

What the library takes on trust are the contracts of the calls into `chrono` (texts of days and
instants), `serde_json` (reading and writing documents), `flate2` (gzip) and three functions of the
standard library. Each stands behind an item whose comment says what is claimed.

Coordinates and other floats are held by their bits and only compared; distances and time sums that
need float arithmetic are handed in by the caller.
