# bun_binary_extractor

Extracts embedded files from Bun standalone executables.

- `src/` is the library, verified with Verus: it finds the payload of an executable, reads its
  modules, decodes their sourcemaps, and decides which files an extraction writes and where.
- `app/` is the command line program around it: arguments, files and messages.
- `tests/` run the compiled library on small executables and sourcemaps that they build in memory.

## What is covered

- Appended payloads, and payloads in PE `.bun`, ELF `.bun` and Mach-O `__BUN,__bun` sections.
- Module records of all known sizes, among them the packed ones of 36 bytes, and those of 52 bytes
  with bytecode, module info, the origin of the bytecode, and loaders up to `md`.
- Bun's virtual paths on Unix and on Windows, with `..` steps that never leave the output directory.
- Binary sourcemaps with Zstandard-compressed sources, decoded to standard JSON.

Bytecode is written as stored; interpreting it is out of scope.

## What is proved

Every function states what it returns for every input, errors included, with one exception: the
file name in a path that begins with two separators, or whose last name is the first and begins
with a drive, such as `C:a.ts` or `C:/`, is not the same on Unix and Windows, and is left open
(`paths::file_name_of`, and with it the flattening of sources in `sourcemap`). Beyond that:

- an executable whose module table lists certain modules is parsed to exactly these modules
  (`graph`), everything that is extracted is part of the payload (`extractor`), and what stands in
  front of an appended payload does not count (`relocation`);
- mappings written in Bun's binary form are decoded to exactly these mappings (`encoding`), and a
  reader of the standard `mappings` string gets them back (`mappings`);
- paths for modules and sources stay below the output directory, whether the paths of sources are
  preserved or flattened (`paths`, `plan`, `sourcemap`).

What Zstandard, the regular expressions and the JSON printer do is not proved: each call is named,
and the items that make the calls say what is taken on trust.
