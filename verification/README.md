# twilight_kernel

The decisions of a small operating system kernel, with contracts that Verus proves:
file systems, memory, processes, signals, sockets, system calls and the console.

- `src/` is the library. Everything in it is verified. Shared objects are numbers, user
  memory and paths are bytes, and whatever the machine says (the time, chance, what a
  device did) comes in as an argument.
  - `block`, `disk`, `partition`, `iso9660`, `twilight_fs`, `vfs`, `memfd`, `fs`: storage.
  - `memory`: frames, page flags, the heap, buffers for devices.
  - `proc`, `preempt`: programs, their memory, signals, and who runs next.
  - `net`: UNIX sockets, and what UDP sockets ask of the network stack.
  - `syscall`: system calls, one step at a time where they have to wait.
  - `console`, `kmsg`, `acpi`: the screen, the log device, power control.
- `app/` drives page tables, the firmware tables, the heap, the network stack and the
  loop of system calls. It asks the library what to do and tells it what came of it.
  `calls` ends every call through the library, which delivers signals and chooses who runs
  next; `files`, `contents`, `spaces`, `polls` and `small` do the calls on paths, on the
  contents of files, on memory, on readiness, and on signals, time and the program itself.
  `programs` reads and starts programs, gives children their memory and fills missing pages.
  Calls that a device answers alone, such as `ioctl`, and those on messages and files in
  memory are left to the `Machine` that runs the loop.
- `tests/` runs the library on concrete values.

In `twilight_fs`, `coherence` and `contents` say when what is remembered of names and of
contents agrees with the blocks, and that looking up, reading, writing, renaming and
removing keep it so; `moves` says what renaming and removing do to paths, and `decided`
that what making, renaming and removing answer and leave behind depends on the volume alone.
`upkeep` says that a fresh volume is in order, that it stays so when files and directories
are made, and that names stand for what is in use.

A few functions of other crates are called from the library. What is believed of them
stands in the contracts of `is_utf8`, `meaningful_rflags`, `word_bit` and `word_with_bit`.
