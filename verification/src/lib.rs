//! Debugger and profiler output for just-in-time compiled SBPF programs.
//!
//! Of a compiled program, [`meta::JitCodeMeta`] says where its machine code is
//! and what its functions are called. From that come two kinds of output:
//!
//! - for debuggers, a symbol file in memory ([`elf_image`]) and an entry for it
//!   in the list that they read ([`entry_list`], [`jit_gdb`]);
//! - for profilers, a dump file with the machine code ([`dump_format`],
//!   [`dump_session`], [`jit_dump`]) and source files with the disassembly that
//!   it refers to ([`source`]).
//!
//! [`jit_debug::JitDebug`] brings both together. Everything here computes; what
//! reads files, clocks and the environment is left to the caller.

pub mod bytes;
pub mod code_map;
pub mod debug_line;
pub mod dump_format;
pub mod dump_items;
pub mod dump_opening;
pub mod dump_reader;
pub mod dump_session;
pub mod dump_writer;
pub mod elf_format;
pub mod elf_image;
pub mod elf_reader;
pub mod entry_list;
pub mod executable;
pub mod function_ranges;
pub mod hash;
pub mod instruction;
pub mod jit_debug;
pub mod jit_dump;
pub mod jit_gdb;
pub mod leb128;
pub mod meta;
pub mod registry;
pub mod source;
pub mod symbol_set;
pub mod text;
