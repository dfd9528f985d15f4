# resmon

A monitor of a machine's resources for the terminal: memory, processor load, storage, battery,
network traffic and processes, on Linux and macOS.

- `src/` is the library. It reads the texts that the system offers, computes the figures and
  writes the lines that show them. Verus proves the contract of every function but the few
  wrappers that are named below.
- `app/` is the program around it: it parses the command line, reads files, runs commands, and
  prints.
- `tests/` runs the library on concrete values.

Percentages are kept as significands and exponents of whole numbers (`binary`, `single`,
`percent`), rounded as IEEE 754 asks, so the figures shown are those of double and single
precision arithmetic.

What the proofs rest on without proof is said above each item that is trusted: the colours of
the crate `colored` (`paint`), the decoding of bytes that may not be UTF-8 (`lossy`), which
characters are numerals (`macos`), and `String::push` (`text`).
