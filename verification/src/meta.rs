//! What is known of one compiled program.

use vstd::prelude::*;

verus! {

/// The features of an SBPF version that the debug output depends on.
#[derive(Clone, Copy, Debug, PartialEq, Eq, Structural)]
pub struct SBPFVersion {
    /// Whether the version has no two-slot `lddw` instruction.
    pub disable_lddw: bool,
    /// Whether functions are keyed by their program counter and not by the
    /// hash of their name.
    pub static_syscalls: bool,
}

/// A function of the program.
pub struct JitSymbol {
    pub key: u32,
    pub name: String,
    pub pc: usize,
}

/// What a [`JitSymbol`] says.
pub struct SymbolView {
    pub key: u32,
    pub name: Seq<char>,
    pub pc: usize,
}

impl View for JitSymbol {
    type V = SymbolView;

    open spec fn view(&self) -> SymbolView {
        SymbolView { key: self.key, name: self.name@, pc: self.pc }
    }
}

/// A syscall that the program can call.
pub struct JitSyscallSymbol {
    pub name: String,
}

/// A range of the machine code that belongs to no function of the program.
pub struct JitHostSymbol {
    pub name: String,
    pub host_start: u64,
    pub host_end: u64,
}

/// What the debug output says of one compiled program.
pub struct JitCodeMeta {
    pub id: String,
    pub code_ptr: u64,
    pub code_len: usize,
    pub sbpf_version: SBPFVersion,
    pub symbols: Vec<JitSymbol>,
    pub syscalls: Vec<JitSyscallSymbol>,
    pub host_symbols: Vec<JitHostSymbol>,
    pub function_entry_offsets: Vec<u32>,
}

} // verus!
