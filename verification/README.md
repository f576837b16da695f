# moc_cli

The verified core of the `from` command of a MOC (Multi-Order Coverage map)
command line tool: everything that turns a line of text into the integers
and fields a MOC is built from.

- `src/text.rs`: Unicode whitespace trimming (`str::trim`), splitting at the
  first occurrence of a separator (`str::split_once`), tokenising a vertex
  list `(lon,lat),(lon,lat),...` and pairing its values.
- `src/uint.rs`: decimal `u64` parsing with the rules and error kinds of
  `u64::from_str`.
- `src/cells.rs`: HEALPix uniq cells (depth, number of sub-cells at the MOC
  depth) and time indices at a time-MOC depth.
- `src/time.rs`: Gregorian date-times (`YYYY-MM-DDTHH:MM:SS` and RFC 3339)
  turned into microseconds since JD=0.
- `src/lines.rs`: the fields of each kind of input line and why a line is
  refused.
- `app/`: the command line program (argument parsing, file reading, floating
  point angle checks, MOC construction and output through the `moc` crate).

Each module ends with its laws, stated and proved as proof functions.
