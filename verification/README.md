# macOS system health report

A program that reports the health of a macOS system — CPU, memory, storage,
power, Wi-Fi, Bluetooth and Ethernet — and ends with a summary of anything
that needs attention. It runs the standard macOS tools and reads their text.

## Layout

- `src/` — the verified library (Verus). It holds the reading of the tools'
  output and the rules that decide each section's lines and warnings:
  - `text.rs` — `str` operations (`lines`, `trim`, `split`,
    `split_whitespace`, `find`, prefix and suffix matching) stated over
    `Seq<char>`, with verified implementations over character vectors;
  - `number.rs` — decimal text of integers and integer parsing;
  - `size.rs` — byte counts in GiB, rounded as `f64` arithmetic rounds;
  - `fields.rs` — `key: value` lookups and SMART counters;
  - `report.rs` — the shared report state and the summary;
  - `wifi.rs`, `ethernet.rs`, `bluetooth.rs`, `power.rs`, `storage.rs`,
    `usage.rs` — the sections.
- `app/` — the program: it runs the tools, does the floating-point
  arithmetic (percentages, load, memory in GB), and prints.
- `tests/` — tests of the library on sample tool output.
