# relay

The verified core of a small x86-64 UEFI loader and kernel, written in Verus.

`src/` is the library. Verus proves the contract of every function in it except a few small
wrappers around outside code (the CRC-32 of the `crc` crate, the glyphs of
`noto-sans-mono-bitmap`, and `String::push` / `String::try_reserve`), whose contracts are
trusted as stated in their doc comments. Devices are user-supplied `BlockDevice`s; their
contract records every request and its answer, so reading functions state which sectors they
ask for and how the answer decides the result.

- `abi`: the loader/kernel hand-off record and GPT GUIDs (canonical text and on-disk byte order).
- `block`: sector-addressed devices and partitions that refuse out-of-range requests before any I/O.
- `gpt`: GUID partition table parsing, the choice between the primary and backup copies
  (redundant, degraded or conflicting) and partition selection.
- `ext2`: mounting of the supported ext2 profile (superblock and group descriptor validation).
- `fs`, `vfs`: path component names and the current directory.
- `shell`: the command-line tokenizer and command parser.
- `memory`: a physical frame allocator over usable regions.
- `console`: a text console drawn on a framebuffer with a bitmap font.
- `loader`: configuration and ELF parsing, memory-map normalization, page-table construction and
  the hand-off decisions.
- `kernel`: the bootstrap heap, interrupt gates and console set-up.

`app/` holds what touches hardware or firmware directly: UEFI services, raw memory, port I/O,
descriptor tables and the jump into the kernel. `tests/` exercises the library.
