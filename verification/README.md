# vgos

Kernel support library for a small x86_64 operating system, verified with Verus.

- `src/memory.rs` — the physical memory manager: a bitmap with one bit per 4 KiB
  page frame, set up from the bootloader's memory map, handing out single frames
  and runs of frames.
- `src/framebuffer.rs` — a text renderer for a 32-bit linear framebuffer that
  draws the 8x8 font scaled up; it yields the pixel stores that text takes.
- `src/writer.rs` — a plain console renderer with margins and wrap-around; it
  yields the framebuffer bytes that text sets.
- `src/font.rs` — the glyph lookup in the `font8x8` crate.
- `app/` — the kernel around the library: Limine boot requests, the global
  console that performs the stores on the memory-mapped framebuffer, the
  interrupt descriptor table and the heap.
- `tests/` — tests of the library.
