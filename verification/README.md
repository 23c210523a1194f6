# rustos

The parts of an operating system kernel that decide and compute: memory, processes and
sockets.  They are written in Verus, and what each function does is stated in its contract
and proved.

- `src/mm`: frames (a buddy allocator behind a magazine per processor), page tables, objects
  with their pages and shadows, address maps, page faults and the writing back of pages.
- `src/proc`: tasks, signals, fork and clone, the end of a process and the wait for it, and
  the loading of programs.
- `src/net`: socket addresses, ports, and what the state of a connection means for those who
  use it.
- `src/hal`: addresses, error numbers and saved registers.
- `src/boot.rs`: what is decided when the system starts.
- `app`: a machine around the library, with files, frames of memory and a loopback network.
- `tests`: examples, one file for each part.

State that a kernel keeps in global variables is passed in and handed back.  What only the
machine can do (copying to user memory, flushing translations, waking sleepers, reading
files) is returned as a plan, or its outcome is an argument of the step that follows.

The headers of ELF files are read by the `goblin` crate.  The three functions that call out of
the library are `read_header` and `read_phdrs` in `src/proc/exec/elf.rs` and `utf8_text` in
`src/proc/exec/text.rs`; their contracts are not proved.
