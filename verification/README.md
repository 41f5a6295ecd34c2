# objsplit

Readers, writers and analyses for the object formats of classic PowerPC Mac OS
(PEF, XCOFF) and 32-bit Windows (COFF/PE) executables, verified with Verus.

- `src/obj.rs`: the object model that everything else works on.
- `src/util/`: `pef*` reads PEF files, `xcoff*` writes XCOFF objects, `coff*` reads
  COFF/PE files and writes COFF objects, `rsp` writes linker response files.
- `src/analysis/`: function discovery and function sizes in x86 code, and detection of
  MSVC type information.
- `src/cmd/`: what the `pef` and `coff` commands compute.
- `src/addr_map.rs`, `src/bytes.rs`, `src/text.rs`, `src/demangle.rs`: maps by address,
  words, texts and C++ names.
- `app/`: the commands themselves: arguments, files, logging.
- `tests/`: the library on given values.

Files whose names end in `_laws`, and the public lemmas of the other files, state what
holds across functions. Calls into other crates stand behind small functions marked
`external_body`; the comment above each one says what is taken on trust.
