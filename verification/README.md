# open_depacker

Tools for Amiga files, verified with Verus.

- `src/hunk.rs`: the hunk executable format and its parser, specified over the
  bytes of the image (`parse_spec`).
- `src/amiga.rs`: a 16 MB model of the Amiga's memory, the 68000 core's memory
  accessors, and the loader that places code, data and bss hunks and applies
  their 32-bit relocations (`load_spec`).
- `src/bytes.rs`: big-endian words, read and written through `byteorder`.
- `src/scan.rs`: the decisions of the archive scanner (which walked paths are
  scanned, which unpacked files are written, and into which directory).
- `src/musashi.rs`: the handle of the 68000 core.
- `app/`: the command-line scanner (directory walk, LZX unpacker calls, file
  output) and the file side of the loader.
