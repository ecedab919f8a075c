# recoverar

A storage forensics and data recovery library: partition tables (MBR, GPT, EBR chains),
heuristic boot sector search, NTFS boot sectors, MFT records and runlists, directory trees
and file extraction, signature carving with format validators, and bad-sector tolerant disk
imaging with a rescue map. The library is written in Verus: every function carries a
contract, and the contracts and the laws between functions are proved.

Layout:

- `src/` is the verified library, one module per format or task (`mbr`, `gpt`, `partition`,
  `heuristics`, `vbr`, `usn`, `attribute`, `mft`, `engine`, `tree`, `signatures`, `scanner`,
  `mapfile`, `maptext`, `imager`, `stats`, `demo`, ...). Media are reached through the
  `BlockDevice` trait; recovered files go to a `ByteSink`.
- `tests/` exercises the library on concrete inputs, including the synthetic disk image of
  `demo`.
- `app/` is the command-line tool: devices over files and raw drives, file output, progress
  bars and reports.

Assumptions:

- The contracts of `BlockDevice` and `ByteSink` are assumed of every implementation. Their
  spec functions (`data`, `reported_size`, `sector_size_spec`, `read_log`, `written`) are
  constant functions (empty contents, size and sector size 0, empty logs) by default, only so
  that implementations written in plain Rust (the devices in `app/`, the in-memory devices of
  `tests/`) compile; such an implementation cannot define them. What the library proves of a
  call through one holds on the assumption that the implementation behaves as the trait's
  contracts describe, with these functions read as the medium's real contents, size, sector
  size and log of reads. Verified code never relies on the default definitions.
- `AlignedBuffer` records the alignment it was asked for but is an ordinary vector; it does
  not place its bytes at an aligned address. The raw-drive device of `app/` copies every
  transfer through page-aligned buffers of whole sectors instead.
- Carving scans a device chunk by chunk in one thread; the files found and their order are
  those a parallel scan of the chunk's spans would collect.
