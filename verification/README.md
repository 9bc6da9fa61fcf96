# tukubai_core

Byte-oriented text tools in the tukubai tradition (`delf`, `delr`, `join0`,
`lcnt`, `self`, `selr`), with their parsing and decision logic verified by
Verus.

Input is a byte stream: LF (0x0A) ends each record, runs of SPACE (0x20)
separate fields, every other byte is data.

## Layout

- `src/` — the verified library.
  - `record.rs`: reading LF-terminated records from any `BufRead`.
  - `fields.rs`: field splitting, and the laws of the field model.
  - `digits.rs`, `decimal.rs`: digit strings, byte order and numeric order.
  - `selector.rs`: selector syntax (`<n>`, `0`, `NF`, `NF-<n>`, ranges) and
    its resolution against a record.
  - `key.rs`: key syntax (`@`-separated items with `n`/`r`/`nr`
    attributes), resolution, position mapping and comparison.
  - `delf.rs`, `select.rs` (`self`), `field_filter.rs` (`delr`, `selr`),
    `join0.rs`, `lcnt.rs`: what each command decides for its arguments and
    for each record.
  - `output.rs`: output errors and the decisions taken on system-call results
    when writing to a borrowed file descriptor.
- `tests/` — tests of the library on concrete values.
- `app/` — the command-line program: argument plumbing, files, standard
  streams and file descriptors.

Each public function states its result in `ensures` over spec functions;
the laws of the model (field splitting and joining, range reversal, order of
resolution, key mapping, and that key order is a total preorder) are public
proof functions next to the definitions they speak of.
