# elf_linker

A small static linker for x86-64 ELF relocatable objects that produces a
dynamically linked executable, written in Verus and verified.

Layout:

- `src/elf64.rs`: the ELF64 records (header, program and section headers,
  symbols, relocations, dynamic entries) and their packed fields.
- `src/codec.rs`: little-endian encoding and decoding of those records, with
  round-trip lemmas.
- `src/names.rs`: the section and symbol names the linker looks for.
- `src/parser/`: reading an object or shared library: header, section headers,
  string and symbol tables, `.rela.text`, `.dynamic`, `.bss`, and the merged
  sections.
- `src/linker/`: symbol resolution, section merging and placement,
  relocation, the dynamic tables (`.dynsym`, `.dynstr`, `.hash`, `.plt`,
  `.got`, `.dynamic`, `.interp`), and the output image with its headers.
  The laws of the linker (that a relocated PC-relative field reaches its
  target, that every placed section reads back from the image, that the image
  parses again) are public proof functions beside the code they speak of.
- `tests/`: tests on hand-built object files.
- `app/`: the command line: argument handling, file reads and the write of the
  executable.
