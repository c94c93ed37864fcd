# jit_debug

Debugger and profiler output for just-in-time compiled SBPF programs, verified
with Verus.

When a program has been compiled, debuggers and profilers see machine code
without names. This library computes what they need to be told:

- `elf_image` builds an ELF symbol file with the machine code, its functions and
  a line table, and `entry_list` keeps the list in which debuggers find it;
- `dump_session` writes a jitdump file with the machine code of each function,
  and `source` the disassembly that its debug information refers to;
- `executable` gathers what is known of a program, and `jit_debug` brings both
  kinds of output together.

`src/` is the verified library. The contracts say which bytes come out, and the
functions whose names start with `law_` what holds of them: what a reader of a
symbol file or of a dump finds in it, which line belongs to which program
counter, how the list of symbol files stays whole.

`app/` does what the library leaves to its caller: files, the clock, the
environment, and the memory that debuggers read. The disassembler of single
instructions is handed in.

`tests/` runs the library on concrete values.
