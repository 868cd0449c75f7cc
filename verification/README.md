# test_data_generator

A generator of test data for coding problems. A script of variables such as
`(BEGIN;; 1)(1..10 ; int ; 10)(END)` is parsed into tokens, compiled to TD
assembly (`REP 1`, `OUT RD QU 10 EC  RDI 1 10 CRD`, `CREP`, ...), and the
compiled program is run by a small virtual machine.

- `src/` is the library, verified with Verus: text and number helpers
  (`text`, `number`), variables and their integer ranges and character sets
  (`variable`, with the union law of joined ranges in `range_join`), the
  attribute names of scripts (`attribute_table`), the parser, the compiler,
  the TD assembly table, the token reader and the virtual machine, the
  random data of `RD` commands (`random`, through `rand`), and decimals with a
  fixed number of decimals (`fixed`), in which float data is drawn.
- `app/` is the `tdg` command: file input and output, the float ranges of
  variables as the compiler writes them (`f64` arithmetic), and answers made
  by running a command through `subprocess`.
- `tests/` runs the library on the example scripts of the project and on
  edge cases.
