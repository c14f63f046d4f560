# Titanos kernel core, verified

The logic of a small AArch64 kernel (Versatile Express under QEMU), written
in Verus and proved against its contracts.

- `src/pte.rs`: the 64KB-granule descriptor layout (levels 2 and 3, 42-bit
  input addresses) and the bit-level facts about it.
- `src/translation.rs`: what a table translates each virtual address to,
  with next-level tables kept in the world's pages; the facts mapping rests on.
- `src/pagetable.rs`: descriptors (`Pte`, `PteMut`), tables (`PageTable`,
  `PageTableMut`), `map`, the kernel's initial identity map (`init`) and the
  register values that install a root table.
- `src/mm.rs`, `src/world.rs`: the page pool tables are taken from, and the
  world that holds it together with the pages' contents.
- `src/hw.rs`, `src/drv.rs`, `src/pl011.rs`: the hardware interface, UART
  writers and the PL011 driver.
- `src/reg.rs`, `src/bitfield.rs`, `src/arch.rs`, `src/mem.rs`: register
  values, bit fields, critical sections, BSS clearing.
- `app/`: the kernel entry, inline assembly for system registers and
  barriers, volatile device access, linker symbols.
