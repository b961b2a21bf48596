# jesper

Generates a table of Solidity custom errors keyed by selector, each with the
message written above its declaration (`//#Message: "..."`), for use from
TypeScript.

- `src/` is the library, verified with Verus:
  - `text.rs`: the string operations the scanner relies on (trim, white-space
    collapsing, replace, split, lines), stated over `Seq<char>`;
  - `parse_sol_file.rs`: finding error declarations in a Solidity source and
    the message above each;
  - `find_selector.rs`: selectors (`0x` + first four bytes of Keccak-256);
  - `handle_parse_all_files.rs`: ABI error entries, their signatures, and the
    output table that pairs selectors with messages;
  - `strmap.rs`: a string-keyed map with a `Map` model;
  - `config.rs`: the configuration and the file-selection rules.
- `app/` is the command-line program: configuration file, directory walks,
  JSON (de)serialisation, parallel file reading, output files.
- `tests/` runs the library on concrete inputs.

Two parts of the generated output are not produced here, because their
sources are not part of this project:

- the text that the generated `jesper-bindings.ts` starts with before
  `export const errors:JasperObject = ...;` (the TypeScript declarations of
  the table's types), so `errors_module` writes the table's export alone;
- the TypeScript helper that each mode in `modes` adds
  (`jesperParseError<mode>.ts`), so the program reports the path each helper
  belongs at (`mode_file_path`) and writes none.
