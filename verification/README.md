# rou2exos

The logic of a small x86-64 hobby kernel, written in Verus: file systems,
memory managers, parsers and the state machines of its shell and programs,
each function with a contract that Verus proves.

- `src/` is the verified library.
  - `fs/`: sector devices, FAT12 (table, directories, reading and writing
    files, a checker), ISO 9660, and the mount table.
  - `mem/`: the physical frame bitmap, the page-table pool and the page-table
    builders over a word-addressed model of physical memory, and the
    first-fit userland heap with in-band block headers.
  - `init/`: boot-information parsing, CPU checks, fonts, configuration and
    the start-up steps.
  - `input/`: keyboard decoding and line editing, the shell's command
    parsing, mouse packets, ELF loading.
  - `abi/`, `api/`: system-call argument checks and interrupt descriptors.
  - `app/`: the programs' logic (editor, snake, chat, HTTP over UDP, TCP).
  - `audio/`, `net/`, `debug.rs`, `tui.rs`: melodies, TCP segments, the
    debug log and text-mode screen cells.
- `tests/` runs the library on concrete values: in-memory disks, a sparse
  physical memory and a heap region held in a vector.
- `app/` is the kernel program around the library: ports, video memory,
  control registers, the descriptor tables and the shell loop. Devices and
  RAM implement the library's `BlockDevice`, `IsoDevice`, `PhysMemory` and
  `HeapMemory` traits there.
