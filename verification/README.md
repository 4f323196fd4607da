# Object Kernel

A small x86-64 kernel whose logic is a library verified with Verus, and a
thin program around it that talks to the hardware.

## Layout

- `src/` — the verified library.
  - `pmm.rs`: the free list of page frames and its initialisation from the
    boot loader's memory map.
  - `vmm.rs`: four-level page tables over a model of physical memory
    (`PhysMem`): mapping, translating, new address spaces, copying an image.
  - `process.rs`: setting up a process (address space, image, record,
    stack) and the round-robin ring of processes.
  - `modules.rs`: turning the `init` boot modules into processes.
  - `framebuffer.rs`: pixels, rectangles, lines, clears and bitmap text.
  - `terminal.rs`: the text console and the serial writer.
  - `port.rs`: the port writes that program the interrupt controllers, the
    timer and the serial port, and the decisions on values read back.
  - `interrupts.rs`: registered interrupt handlers, what each vector leads
    to, and the messages of unhandled interrupts.
- `tests/` — tests of the library on concrete values.
- `app/` — the kernel program: boot-loader requests, port I/O, descriptor
  tables, interrupt entry stubs, the switch into user mode, and the copy of
  the memory model into physical memory.

The contracts state what each function returns or changes over spec
functions (`map_to_spec`, `setup_spec`, `load_spec`, `console_pixels`, ...), and an
address space is also seen abstractly as a map from virtual page to entry
(`address_space_view`);
the laws that relate several operations are public proof functions
(`lemma_map_then_translate`, `lemma_round_robin`, `lemma_console_concat`,
`lemma_setup_frames`, `lemma_setup_keeps_other_tables`, `lemma_map_to_view`,
`lemma_line_endpoints`, `lemma_pixel_then_read`, `lemma_allocations_distinct`,
`lemma_round_robin_forever`, `lemma_cursor_in_grid`, ...).
